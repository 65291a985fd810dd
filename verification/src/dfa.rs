//! Generic dense deterministic finite automaton representation, and its
//! construction from a nondeterministic one by the subset construction.
//!
//! States are numbered densely from `0` (the start state); every table is
//! indexed by that number.

use vstd::prelude::*;
use crate::endpoint::Endpoint;
use crate::interval::Interval;
use crate::bound::{LowerBound, UpperBound, lo_lt, hi_lt, lo_le_pt, pt_lt_hi};
use crate::interval_map::{IntervalMap, Unification, sorted_wf, map_wf, map_covers, maps_to, meets_at_most_one, intersects, inserted_value, copy_of, lemma_meeting_share_point};
use crate::nfa::{Automaton as NFA, State as NfaState, lemma_reads_here, lemma_reads_eps, lemma_reads_point, lemma_reads_concat};
use crate::regex_lang::matches_word;
use crate::regex_ast::Node;

verus! {

#[derive(Debug, Clone, Copy, PartialEq, Eq, Hash)]
pub struct State(usize);

impl State {
    /// The number of the state.
    pub closed spec fn index(self) -> nat {
        self.0 as nat
    }

    /// The number of the state.
    pub fn id(&self) -> (r: usize)
        ensures
            r == self.index(),
    {
        self.0
    }
}

pub struct Automaton<T, AcceptingValue> {
    state_counter: usize,
    pub start: State,
    accepting: Vec<Option<AcceptingValue>>,
    transitions: Vec<IntervalMap<T, State>>,
}

impl<T: Endpoint, AcceptingValue> Automaton<T, AcceptingValue> {
    /// The start state.
    pub closed spec fn start_state(&self) -> State {
        self.start
    }

    /// Only states handed out accept.
    pub proof fn lemma_accepting_bounded(&self, s: nat)
        requires
            self.inv(),
        ensures
            self.accepting_at(s) is Some ==> s <= self.counter(),
    {
    }

    /// The start state.
    pub fn initial(&self) -> (r: State)
        ensures
            r == self.start_state(),
    {
        self.start
    }

    /// The highest state number handed out.
    pub closed spec fn counter(&self) -> nat {
        self.state_counter as nat
    }

    /// The value a state accepts with, if it is accepting.
    pub closed spec fn accepting_at(&self, s: nat) -> Option<AcceptingValue> {
        if s < self.accepting@.len() {
            self.accepting@[s as int]
        } else {
            None
        }
    }

    /// The transitions leaving `s`: intervals of input to a state.
    pub closed spec fn transitions_at(&self, s: nat) -> Seq<(Interval<T>, State)> {
        if s < self.transitions@.len() {
            self.transitions@[s as int].intervals@
        } else {
            Seq::empty()
        }
    }

    /// On the point `p`, a transition leads from `s` to `t`.
    pub open spec fn moves_to(&self, s: nat, p: int, t: nat) -> bool {
        exists|i: int|
            0 <= i < self.transitions_at(s).len() && (#[trigger] self.transitions_at(s)[i]).0.has_point(p)
                && self.transitions_at(s)[i].1.index() == t
    }

    /// On the point `p`, some transition leaves `s`.
    pub open spec fn moves(&self, s: nat, p: int) -> bool {
        map_covers(self.transitions_at(s), p)
    }

    /// The start state is the first one, the tables cover every state handed
    /// out, transitions stay among them and the transition tables are well
    /// formed.
    pub closed spec fn inv(&self) -> bool {
        &&& self.start == State(0)
        &&& self.accepting@.len() == self.state_counter + 1
        &&& self.transitions@.len() == self.state_counter + 1
        &&& forall|i: int| 0 <= i < self.transitions@.len() ==> sorted_wf((#[trigger] self.transitions@[i]).intervals@)
        &&& forall|i: int, j: int|
            0 <= i < self.transitions@.len() && 0 <= j < self.transitions@[i].intervals@.len()
            ==> (#[trigger] self.transitions@[i].intervals@[j]).1.index() <= self.state_counter
    }

    pub fn new() -> (r: Self)
        ensures
            r.inv(),
            r.counter() == 0,
            r.start_state().index() == 0,
            forall|s: nat| r.accepting_at(s) is None,
            forall|s: nat| r.transitions_at(s) == Seq::<(Interval<T>, State)>::empty(),
    {
        let mut accepting = Vec::new();
        accepting.push(None);
        let mut transitions = Vec::new();
        transitions.push(IntervalMap::new());
        Self { state_counter: 0, start: State(0), accepting, transitions }
    }

    /// Hands out a new state, numbered one above the highest so far.
    pub fn unique_state(&mut self) -> (r: State)
        requires
            old(self).inv(),
            old(self).counter() < usize::MAX,
        ensures
            r != final(self).start_state(),
            final(self).inv(),
            final(self).counter() == old(self).counter() + 1,
            r.index() == final(self).counter(),
            final(self).start_state() == old(self).start_state(),
            forall|s: nat| final(self).accepting_at(s) == old(self).accepting_at(s),
            forall|s: nat| final(self).transitions_at(s) == old(self).transitions_at(s),
    {
        self.state_counter += 1;
        self.accepting.push(None);
        self.transitions.push(IntervalMap::new());
        proof {
            assert forall|i: int| 0 <= i < self.transitions@.len() implies sorted_wf((#[trigger] self.transitions@[i]).intervals@) by {
                if i < self.transitions@.len() - 1 {
                    assert(self.transitions@[i] == old(self).transitions@[i]);
                }
            }
            assert forall|i: int, j: int|
                0 <= i < self.transitions@.len() && 0 <= j < self.transitions@[i].intervals@.len()
                implies (#[trigger] self.transitions@[i].intervals@[j]).1.index() <= self.state_counter by {
                if i < self.transitions@.len() - 1 {
                    assert(self.transitions@[i] == old(self).transitions@[i]);
                }
            }
        }
        State(self.state_counter)
    }

    pub fn accepting_value(&self, state: &State) -> (r: Option<&AcceptingValue>)
        requires
            self.inv(),
        ensures
            r == match self.accepting_at(state.index()) {
                Some(v) => Some(&v),
                None => None::<&AcceptingValue>,
            },
    {
        if state.0 < self.accepting.len() {
            match &self.accepting[state.0] {
                Some(v) => Some(v),
                None => None,
            }
        } else {
            None
        }
    }

    pub fn is_accepting(&self, state: &State) -> (r: bool)
        requires
            self.inv(),
        ensures
            r == (self.accepting_at(state.index()) is Some),
    {
        self.accepting_value(state).is_some()
    }

    /// All the states, in the order of their numbers.
    pub fn states(&self) -> (r: Vec<State>)
        requires
            self.inv(),
        ensures
            r@.len() == self.counter() + 1,
            forall|i: int| 0 <= i < r@.len() ==> (#[trigger] r@[i]).index() == i,
    {
        let mut r: Vec<State> = Vec::new();
        let mut x: usize = 0;
        while x < self.accepting.len()
            invariant
                self.inv(),
                x <= self.accepting@.len(),
                r@.len() == x,
                forall|i: int| 0 <= i < r@.len() ==> (#[trigger] r@[i]).index() == i,
            decreases self.accepting@.len() - x,
        {
            r.push(State(x));
            x = x + 1;
        }
        r
    }

    /// The transitions leaving `from`, if it has any.
    pub fn transitions_from(&self, from: &State) -> (r: Option<&IntervalMap<T, State>>)
        requires
            self.inv(),
        ensures
            r is Some <==> self.transitions_at(from.index()).len() > 0,
            r is Some ==> r.unwrap().intervals@ == self.transitions_at(from.index()),
            sorted_wf(self.transitions_at(from.index())),
    {
        proof {
            if from.index() < self.transitions@.len() {
                assert(sorted_wf(self.transitions@[from.index() as int].intervals@));
            }
        }
        if from.0 < self.transitions.len() && self.transitions[from.0].intervals.len() > 0 {
            Some(&self.transitions[from.0])
        } else {
            None
        }
    }

    pub fn add_accepting_with_value(&mut self, state: State, value: AcceptingValue)
        requires
            old(self).inv(),
            state.index() <= old(self).counter(),
        ensures
            final(self).inv(),
            final(self).counter() == old(self).counter(),
            final(self).start_state() == old(self).start_state(),
            forall|s: nat| final(self).accepting_at(s) == (if s == state.index() { Some(value) } else { old(self).accepting_at(s) }),
            forall|s: nat| final(self).transitions_at(s) == old(self).transitions_at(s),
    {
        self.accepting.set(state.0, Some(value));
    }

    /// Adds a transition from `from` to `to` on every value of `on`, which
    /// no transition leaving `from` may share a value with.
    fn add_transition(&mut self, from: State, on: Interval<T>, to: State)
        requires
            old(self).inv(),
            from.index() <= old(self).counter(),
            to.index() <= old(self).counter(),
            on.is_proper(),
            forall|i: int| 0 <= i < old(self).transitions_at(from.index()).len()
                ==> !intersects((#[trigger] old(self).transitions_at(from.index())[i]).0, on),
        ensures
            final(self).inv(),
            final(self).counter() == old(self).counter(),
            final(self).start_state() == old(self).start_state(),
            forall|s: nat| final(self).accepting_at(s) == old(self).accepting_at(s),
            forall|s: nat| s != from.index() ==> final(self).transitions_at(s) == old(self).transitions_at(s),
            forall|p: int| #![trigger final(self).moves(from.index(), p)]
                final(self).moves(from.index(), p) <==> (old(self).moves(from.index(), p) || on.has_point(p)),
            forall|p: int, t: nat| #![trigger final(self).moves_to(from.index(), p, t)]
                final(self).moves_to(from.index(), p, t) <==> (old(self).moves_to(from.index(), p, t) || (on.has_point(p) && t == to.index())),
    {
        let ghost old_map = self.transitions@[from.0 as int].intervals@;
        let mut map = IntervalMap::new();
        std::mem::swap(&mut map, &mut self.transitions[from.0]);
        proof {
            assert(map.intervals@ == old_map);
            assert(old_map == old(self).transitions_at(from.index()));
            assert(meets_at_most_one(old_map, on));
        }
        map.insert_and_unify(on, to, keep_existing);
        let ghost new_map = map.intervals@;
        self.transitions.set(from.0, map);
        proof {
            assert(self.transitions_at(from.index()) == new_map);
            assert forall|s: nat| s != from.index() implies self.transitions_at(s) == old(self).transitions_at(s) by {
                if s < self.transitions@.len() {
                    assert(self.transitions@[s as int] == old(self).transitions@[s as int]);
                }
            }
            assert forall|i: int| 0 <= i < self.transitions@.len() implies sorted_wf((#[trigger] self.transitions@[i]).intervals@) by {
                if i != from.index() {
                    assert(self.transitions@[i] == old(self).transitions@[i]);
                }
            }
            assert forall|p: int| #![trigger self.moves(from.index(), p)]
                self.moves(from.index(), p) <==> (old(self).moves(from.index(), p) || on.has_point(p)) by {
                assert(map_covers(new_map, p) <==> (map_covers(old_map, p) || on.has_point(p)));
            }
            assert forall|p: int, t: nat| #![trigger self.moves_to(from.index(), p, t)]
                self.moves_to(from.index(), p, t) <==> (old(self).moves_to(from.index(), p, t) || (on.has_point(p) && t == to.index())) by {
                lemma_fresh_step(old_map, new_map, on, to, p, t);
            }
            assert forall|i: int, j: int|
                0 <= i < self.transitions@.len() && 0 <= j < self.transitions@[i].intervals@.len()
                implies (#[trigger] self.transitions@[i].intervals@[j]).1.index() <= self.state_counter by {
                if i != from.index() {
                    assert(self.transitions@[i] == old(self).transitions@[i]);
                } else {
                    new_map[j].0.lemma_proper_has_point();
                    let p = choose|p: int| new_map[j].0.has_point(p);
                    let t = new_map[j].1.index();
                    assert(self.moves_to(from.index(), p, t)) by {
                        assert(self.transitions_at(from.index())[j] == new_map[j]);
                    }
                    if old(self).moves_to(from.index(), p, t) {
                        let a = choose|a: int|
                            0 <= a < old_map.len() && (#[trigger] old_map[a]).0.has_point(p) && old_map[a].1.index() == t;
                        assert(old(self).transitions@[i].intervals@[a].1.index() == t);
                    }
                }
            }
        }
    }
}

impl<T: Endpoint, AcceptingValue: Default> Automaton<T, AcceptingValue> {
    /// Marks `state` accepting, with the default value.
    pub fn add_accepting(&mut self, state: State)
        requires
            old(self).inv(),
            state.index() <= old(self).counter(),
        ensures
            final(self).inv(),
            final(self).counter() == old(self).counter(),
            final(self).start_state() == old(self).start_state(),
            final(self).accepting_at(state.index()) is Some,
            forall|s: nat| s != state.index() ==> final(self).accepting_at(s) == old(self).accepting_at(s),
            forall|s: nat| final(self).transitions_at(s) == old(self).transitions_at(s),
    {
        self.add_accepting_with_value(state, AcceptingValue::default());
    }
}

/// The unification of a deterministic automaton's transitions: never
/// needed, as a new transition shares no value with the existing ones.
fn keep_existing(u: Unification<State>) -> (r: State)
    ensures
        r == u.existing,
{
    u.existing
}

/// After adding `to` on `on`, which meets no existing key, a point leads to
/// a state exactly when it did before or the point is in `on` and the state
/// is `to`.
proof fn lemma_fresh_step<T: Endpoint>(
    old_map: Seq<(Interval<T>, State)>,
    new_map: Seq<(Interval<T>, State)>,
    on: Interval<T>,
    to: State,
    p: int,
    t: nat,
)
    requires
        sorted_wf(old_map),
        sorted_wf(new_map),
        forall|i: int| 0 <= i < old_map.len() ==> !intersects((#[trigger] old_map[i]).0, on),
        forall|q: int| #![trigger map_covers(new_map, q)] map_covers(new_map, q) <==> (map_covers(old_map, q) || on.has_point(q)),
        forall|q: int, w: State| #![trigger maps_to(new_map, q, w)] maps_to(new_map, q, w) ==> inserted_value(keep_existing, old_map, on, to, q, w),
    ensures
        (exists|i: int| 0 <= i < new_map.len() && (#[trigger] new_map[i]).0.has_point(p) && new_map[i].1.index() == t)
        <==> ((exists|i: int| 0 <= i < old_map.len() && (#[trigger] old_map[i]).0.has_point(p) && old_map[i].1.index() == t)
            || (on.has_point(p) && t == to.index())),
{
    let old_holds = exists|i: int| 0 <= i < old_map.len() && (#[trigger] old_map[i]).0.has_point(p) && old_map[i].1.index() == t;
    let new_holds = exists|i: int| 0 <= i < new_map.len() && (#[trigger] new_map[i]).0.has_point(p) && new_map[i].1.index() == t;
    if on.has_point(p) && map_covers(old_map, p) {
        let a = choose|a: int| 0 <= a < old_map.len() && (#[trigger] old_map[a]).0.has_point(p);
        assert(old_map[a].0.is_proper());
        assert(on.is_proper());
        assert(intersects(old_map[a].0, on));
    }
    if map_covers(new_map, p) {
        let i = choose|i: int| 0 <= i < new_map.len() && (#[trigger] new_map[i]).0.has_point(p);
        let w = new_map[i].1;
        assert(maps_to(new_map, p, w));
        assert(new_holds <==> w.index() == t) by {
            if new_holds {
                let j = choose|j: int| 0 <= j < new_map.len() && (#[trigger] new_map[j]).0.has_point(p) && new_map[j].1.index() == t;
                if i < j {
                    assert(new_map[i].0.spec_before(new_map[j].0));
                } else if j < i {
                    assert(new_map[j].0.spec_before(new_map[i].0));
                }
            }
        }
        if on.has_point(p) {
            assert(copy_of(to, w));
            assert(!old_holds) by {
                if old_holds {
                    let j = choose|j: int| 0 <= j < old_map.len() && (#[trigger] old_map[j]).0.has_point(p) && old_map[j].1.index() == t;
                    assert(map_covers(old_map, p));
                }
            }
        } else {
            let e = choose|e: State| maps_to(old_map, p, e) && copy_of(e, w);
            let a = choose|a: int| 0 <= a < old_map.len() && (#[trigger] old_map[a]).0.has_point(p) && old_map[a].1 == e;
            assert(old_holds <==> e.index() == t) by {
                if old_holds {
                    let j = choose|j: int| 0 <= j < old_map.len() && (#[trigger] old_map[j]).0.has_point(p) && old_map[j].1.index() == t;
                    if a < j {
                        assert(old_map[a].0.spec_before(old_map[j].0));
                    } else if j < a {
                        assert(old_map[j].0.spec_before(old_map[a].0));
                    }
                }
            }
        }
    } else {
        assert(!new_holds) by {
            if new_holds {
                let j = choose|j: int| 0 <= j < new_map.len() && (#[trigger] new_map[j]).0.has_point(p) && new_map[j].1.index() == t;
                assert(map_covers(new_map, p));
            }
        }
        assert(!old_holds) by {
            if old_holds {
                let j = choose|j: int| 0 <= j < old_map.len() && (#[trigger] old_map[j]).0.has_point(p) && old_map[j].1.index() == t;
                assert(map_covers(old_map, p));
            }
        }
    }
}


/// The NFA states marked in `m`.
pub open spec fn marked(m: Seq<bool>) -> Set<nat> {
    Set::new(|t: nat| t < m.len() && m[t as int])
}

/// The NFA states reached from `s` by epsilon transitions.
pub open spec fn closure_set<T: Endpoint, AV>(nfa: NFA<T, AV>, s: nat) -> Set<nat> {
    Set::new(|t: nat| nfa.eps_reaches(s, t))
}

/// On the point `p`, the NFA leads from `s` to `t`: one transition on `p`,
/// then epsilon transitions.
pub open spec fn leads_to<T: Endpoint, AV>(nfa: NFA<T, AV>, s: nat, p: int, t: nat) -> bool {
    exists|u: NfaState| nfa.steps_to(s, p, u) && nfa.eps_reaches(u.index(), t)
}

/// The NFA states the set `from` leads to on the point `p`.
pub open spec fn step_set<T: Endpoint, AV>(nfa: NFA<T, AV>, from: Set<nat>, p: int) -> Set<nat> {
    Set::new(|t: nat| exists|s: nat| from.contains(s) && #[trigger] leads_to(nfa, s, p, t))
}

/// The set of NFA states reached from the start by reading the points `ps`.
pub open spec fn run_set<T: Endpoint, AV>(nfa: NFA<T, AV>, ps: Seq<int>) -> Set<nat>
    decreases ps.len(),
{
    if ps.len() == 0 {
        closure_set(nfa, nfa.start_state().index())
    } else {
        step_set(nfa, run_set(nfa, ps.drop_last()), ps.last())
    }
}

/// Some input leads the NFA from its start to exactly the states of `s`,
/// and there are some.
pub open spec fn reachable_set<T: Endpoint, AV>(nfa: NFA<T, AV>, s: Set<nat>) -> bool {
    !s.is_empty() && exists|ps: Seq<int>| #[trigger] run_set(nfa, ps) == s
}

/// Some entry holding the point `p` marks `t`.
pub open spec fn entries_reach<T: Endpoint>(entries: Seq<(Interval<T>, Vec<bool>)>, p: int, t: nat) -> bool {
    exists|k: int|
        0 <= k < entries.len() && (#[trigger] entries[k]).0.has_point(p) && t < entries[k].1@.len() && entries[k].1@[t as int]
}

/// Marks, on top of `marks`, the NFA states reached from `state` by epsilon
/// transitions.
fn closure_into<T: Endpoint, AV>(nfa: &NFA<T, AV>, state: &NfaState, marks: &mut Vec<bool>)
    requires
        nfa.inv(),
        state.index() <= nfa.counter(),
        old(marks)@.len() == nfa.counter() + 1,
    ensures
        final(marks)@.len() == old(marks)@.len(),
        forall|t: nat| t < final(marks)@.len() ==> (final(marks)@[t as int] <==> (old(marks)@[t as int] || nfa.eps_reaches(state.index(), t))),
{
    let closure = nfa.epsilon_closure(state);
    let mut k: usize = 0;
    while k < closure.len()
        invariant
            nfa.inv(),
            state.index() <= nfa.counter(),
            marks@.len() == old(marks)@.len(),
            marks@.len() == nfa.counter() + 1,
            k <= closure@.len(),
            forall|x: NfaState| closure@.contains(x) <==> nfa.eps_reaches(state.index(), x.index()),
            forall|i: int| 0 <= i < closure@.len() ==> (#[trigger] closure@[i]).index() <= nfa.counter(),
            forall|t: nat| t < marks@.len() ==> (marks@[t as int] <==> (old(marks)@[t as int]
                || exists|i: int| 0 <= i < k && (#[trigger] closure@[i]).index() == t)),
        decreases closure@.len() - k,
    {
        let x = closure[k].id();
        marks.set(x, true);
        proof {
            assert forall|t: nat| t < marks@.len() implies (marks@[t as int] <==> (old(marks)@[t as int]
                || exists|i: int| 0 <= i < k + 1 && (#[trigger] closure@[i]).index() == t)) by {
                if t == x {
                    assert(closure@[k as int].index() == t);
                }
            }
        }
        k = k + 1;
    }
    proof {
        assert forall|t: nat| t < marks@.len() implies (marks@[t as int] <==> (old(marks)@[t as int] || nfa.eps_reaches(state.index(), t))) by {
            if nfa.eps_reaches(state.index(), t) {
                nfa.lemma_counter_fits();
                NfaState::lemma_state_exists(t);
                let x = choose|x: NfaState| x.index() == t;
                assert(closure@.contains(x));
                let i = choose|i: int| 0 <= i < closure@.len() && closure@[i] == x;
                assert(closure@[i].index() == t);
            }
            if exists|i: int| 0 <= i < k && (#[trigger] closure@[i]).index() == t {
                let i = choose|i: int| 0 <= i < k && (#[trigger] closure@[i]).index() == t;
                assert(closure@.contains(closure@[i]));
            }
        }
    }
}

/// The NFA states reached by epsilon transitions from some state of `dest`.
fn targets_of<T: Endpoint, AV>(nfa: &NFA<T, AV>, dest: &Vec<NfaState>) -> (r: Vec<bool>)
    requires
        nfa.inv(),
        forall|i: int| 0 <= i < dest@.len() ==> (#[trigger] dest@[i]).index() <= nfa.counter(),
    ensures
        r@.len() == nfa.counter() + 1,
        forall|t: nat| t < r@.len() ==> (r@[t as int] <==> exists|u: NfaState| dest@.contains(u) && #[trigger] nfa.eps_reaches(u.index(), t)),
{
    let n = nfa.states().len();
    let mut marks: Vec<bool> = Vec::new();
    let mut i: usize = 0;
    while i < n
        invariant
            i <= n,
            marks@.len() == i,
            forall|j: int| 0 <= j < i ==> !marks@[j],
        decreases n - i,
    {
        marks.push(false);
        i = i + 1;
    }
    let mut k: usize = 0;
    while k < dest.len()
        invariant
            nfa.inv(),
            n == nfa.counter() + 1,
            marks@.len() == n,
            k <= dest@.len(),
            forall|i: int| 0 <= i < dest@.len() ==> (#[trigger] dest@[i]).index() <= nfa.counter(),
            forall|t: nat| t < marks@.len() ==> (marks@[t as int] <==> exists|u: NfaState| dest@.take(k as int).contains(u) && #[trigger] nfa.eps_reaches(u.index(), t)),
        decreases dest@.len() - k,
    {
        let ghost before = marks@;
        closure_into(nfa, &dest[k], &mut marks);
        proof {
            let tk = dest@.take(k as int);
            let tk1 = dest@.take(k + 1);
            assert(tk1 == tk.push(dest@[k as int]));
            assert forall|t: nat| t < marks@.len() implies (marks@[t as int] <==> exists|u: NfaState| tk1.contains(u) && #[trigger] nfa.eps_reaches(u.index(), t)) by {
                if exists|u: NfaState| tk1.contains(u) && #[trigger] nfa.eps_reaches(u.index(), t) {
                    let u = choose|u: NfaState| tk1.contains(u) && #[trigger] nfa.eps_reaches(u.index(), t);
                    let w = choose|w: int| 0 <= w < tk1.len() && tk1[w] == u;
                    if w < k {
                        assert(tk[w] == u);
                        assert(tk.contains(u));
                    }
                }
                if exists|u: NfaState| tk.contains(u) && #[trigger] nfa.eps_reaches(u.index(), t) {
                    let u = choose|u: NfaState| tk.contains(u) && #[trigger] nfa.eps_reaches(u.index(), t);
                    let w = choose|w: int| 0 <= w < tk.len() && tk[w] == u;
                    assert(tk1[w] == u);
                }
                if nfa.eps_reaches(dest@[k as int].index(), t) {
                    assert(tk1[k as int] == dest@[k as int]);
                    assert(tk1.contains(dest@[k as int]));
                }
            }
        }
        k = k + 1;
    }
    proof {
        assert(dest@.take(k as int) == dest@);
    }
    marks
}


/// The `i`-th transition leaving `s` holds `p` and leads, by epsilon
/// transitions, to `t`.
pub open spec fn entry_leads<T: Endpoint, AV>(nfa: NFA<T, AV>, s: nat, i: int, p: int, t: nat) -> bool {
    &&& nfa.transitions_at(s)[i].0.has_point(p)
    &&& exists|u: NfaState| nfa.transitions_at(s)[i].1@.contains(u) && #[trigger] nfa.eps_reaches(u.index(), t)
}

/// `s` leads on `p` to `t` exactly when one of its transitions does.
proof fn lemma_leads_by_entry<T: Endpoint, AV>(nfa: NFA<T, AV>, s: nat, p: int, t: nat)
    ensures
        leads_to(nfa, s, p, t) <==> exists|i: int| 0 <= i < nfa.transitions_at(s).len() && #[trigger] entry_leads(nfa, s, i, p, t),
{
    if leads_to(nfa, s, p, t) {
        let u = choose|u: NfaState| nfa.steps_to(s, p, u) && nfa.eps_reaches(u.index(), t);
        let i = choose|i: int|
            0 <= i < nfa.transitions_at(s).len() && (#[trigger] nfa.transitions_at(s)[i]).0.has_point(p)
                && nfa.transitions_at(s)[i].1@.contains(u);
        assert(entry_leads(nfa, s, i, p, t));
    }
    if exists|i: int| 0 <= i < nfa.transitions_at(s).len() && #[trigger] entry_leads(nfa, s, i, p, t) {
        let i = choose|i: int| 0 <= i < nfa.transitions_at(s).len() && #[trigger] entry_leads(nfa, s, i, p, t);
        let u = choose|u: NfaState| nfa.transitions_at(s)[i].1@.contains(u) && #[trigger] nfa.eps_reaches(u.index(), t);
        assert(nfa.steps_to(s, p, u));
    }
}

/// The transitions leaving the marked states, each with the NFA states its
/// targets reach by epsilon transitions.
fn collect_entries<T: Endpoint, AV>(nfa: &NFA<T, AV>, m: &Vec<bool>) -> (r: Vec<(Interval<T>, Vec<bool>)>)
    requires
        nfa.inv(),
        m@.len() == nfa.counter() + 1,
    ensures
        forall|k: int| 0 <= k < r@.len() ==> (#[trigger] r@[k]).1@.len() == nfa.counter() + 1 && r@[k].0.is_proper(),
        forall|p: int, t: nat| t < nfa.counter() + 1 ==> (entries_reach(r@, p, t) <==> exists|s: nat| marked(m@).contains(s) && #[trigger] leads_to(*nfa, s, p, t)),
{
    let states = nfa.states();
    let mut entries: Vec<(Interval<T>, Vec<bool>)> = Vec::new();
    let mut s: usize = 0;
    while s < m.len()
        invariant
            nfa.inv(),
            m@.len() == nfa.counter() + 1,
            states@.len() == nfa.counter() + 1,
            forall|i: int| 0 <= i < states@.len() ==> (#[trigger] states@[i]).index() == i,
            s <= m@.len(),
            forall|k: int| 0 <= k < entries@.len() ==> (#[trigger] entries@[k]).1@.len() == nfa.counter() + 1 && entries@[k].0.is_proper(),
            forall|p: int, t: nat| t < nfa.counter() + 1 ==> (entries_reach(entries@, p, t) <==>
                exists|s2: nat| s2 < s && m@[s2 as int] && #[trigger] leads_to(*nfa, s2, p, t)),
        decreases m@.len() - s,
    {
        let ghost before = entries@;
        if m[s] {
            match nfa.transitions_from(&states[s]) {
                Some(map) => {
                    let ghost ts = nfa.transitions_at(s as nat);
                    let mut i: usize = 0;
                    while i < map.intervals.len()
                        invariant
                            nfa.inv(),
                            map.intervals@ == ts,
                            ts == nfa.transitions_at(s as nat),
                            forall|j: int, k: int| 0 <= j < ts.len() && 0 <= k < ts[j].1@.len()
                                ==> (#[trigger] ts[j].1@[k]).index() <= nfa.counter(),
                            i <= ts.len(),
                            s < m@.len(),
                            m@[s as int],
                            m@.len() == nfa.counter() + 1,
                            forall|p: int, t: nat| t < nfa.counter() + 1 ==> (entries_reach(before, p, t) <==>
                                exists|s2: nat| s2 < s && m@[s2 as int] && #[trigger] leads_to(*nfa, s2, p, t)),
                            forall|k: int| 0 <= k < entries@.len() ==> (#[trigger] entries@[k]).1@.len() == nfa.counter() + 1 && entries@[k].0.is_proper(),
                            forall|p: int, t: nat| t < nfa.counter() + 1 ==> (entries_reach(entries@, p, t) <==>
                                (entries_reach(before, p, t) || exists|j: int| 0 <= j < i && #[trigger] entry_leads(*nfa, s as nat, j, p, t))),
                        decreases ts.len() - i,
                    {
                        let entry = &map.intervals[i];
                        if entry.0.upper.is_before_lower(&entry.0.lower) {
                            // A key that holds no point leads nowhere
                            let ghost i0 = i as int;
                            proof {
                                assert(entry.0 == ts[i0].0);
                            }
                            i = i + 1;
                            proof {
                                assert forall|p: int, t: nat| t < nfa.counter() + 1 implies (entries_reach(entries@, p, t) <==>
                                    (entries_reach(before, p, t) || exists|j: int| 0 <= j < i && #[trigger] entry_leads(*nfa, s as nat, j, p, t))) by {
                                    assert(!ts[i0].0.has_point(p));
                                    assert(!entry_leads(*nfa, s as nat, i0, p, t));
                                    assert(entries_reach(entries@, p, t) <==> (entries_reach(before, p, t)
                                        || exists|j: int| 0 <= j < i0 && #[trigger] entry_leads(*nfa, s as nat, j, p, t)));
                                    if exists|j: int| 0 <= j < i && #[trigger] entry_leads(*nfa, s as nat, j, p, t) {
                                        let j = choose|j: int| 0 <= j < i && #[trigger] entry_leads(*nfa, s as nat, j, p, t);
                                        assert(0 <= j < i0);
                                    }
                                    if exists|j: int| 0 <= j < i0 && #[trigger] entry_leads(*nfa, s as nat, j, p, t) {
                                        let j = choose|j: int| 0 <= j < i0 && #[trigger] entry_leads(*nfa, s as nat, j, p, t);
                                        assert(0 <= j < i);
                                    }
                                }
                            }
                        } else {
                            let ds = targets_of(nfa, &entry.1);
                            let ghost e0 = entries@;
                            entries.push((entry.0, ds));
                            let ghost i0 = i as int;
                            i = i + 1;
                            proof {
                                assert(ts[i0].0.is_proper());
                                assert forall|p: int, t: nat| t < nfa.counter() + 1 implies (entries_reach(entries@, p, t) <==>
                                    (entries_reach(before, p, t) || exists|j: int| 0 <= j < i && #[trigger] entry_leads(*nfa, s as nat, j, p, t))) by {
                                    let n = e0.len() as int;
                                    assert(entries_reach(e0, p, t) <==>
                                        (entries_reach(before, p, t) || exists|j: int| 0 <= j < i0 && #[trigger] entry_leads(*nfa, s as nat, j, p, t)));
                                    if entries_reach(entries@, p, t) {
                                        let k = choose|k: int| 0 <= k < entries@.len() && (#[trigger] entries@[k]).0.has_point(p) && t < entries@[k].1@.len() && entries@[k].1@[t as int];
                                        if k < n {
                                            assert(entries_reach(e0, p, t)) by {
                                                assert(e0[k] == entries@[k]);
                                            }
                                            if exists|j: int| 0 <= j < i0 && #[trigger] entry_leads(*nfa, s as nat, j, p, t) {
                                                let j = choose|j: int| 0 <= j < i0 && #[trigger] entry_leads(*nfa, s as nat, j, p, t);
                                                assert(0 <= j < i);
                                            }
                                        } else {
                                            assert(entry_leads(*nfa, s as nat, i0, p, t));
                                        }
                                    }
                                    if entries_reach(e0, p, t) {
                                        let k = choose|k: int| 0 <= k < e0.len() && (#[trigger] e0[k]).0.has_point(p) && t < e0[k].1@.len() && e0[k].1@[t as int];
                                        assert(entries@[k] == e0[k]);
                                    }
                                    if exists|j: int| 0 <= j < i && #[trigger] entry_leads(*nfa, s as nat, j, p, t) {
                                        let j = choose|j: int| 0 <= j < i && #[trigger] entry_leads(*nfa, s as nat, j, p, t);
                                        if j == i0 {
                                            assert(entries@[n].0.has_point(p));
                                            assert(entries@[n].1@[t as int]);
                                        } else {
                                            assert(exists|j2: int| 0 <= j2 < i0 && #[trigger] entry_leads(*nfa, s as nat, j2, p, t));
                                        }
                                    }
                                }
                            }
                        }
                    }
                    proof {
                        assert forall|p: int, t: nat| t < nfa.counter() + 1 implies (entries_reach(entries@, p, t) <==>
                            exists|s2: nat| s2 < s + 1 && m@[s2 as int] && #[trigger] leads_to(*nfa, s2, p, t)) by {
                            lemma_add_source(*nfa, m@, s as nat, before, entries@, p, t);
                        }
                    }
                },
                None => {
                    proof {
                        assert forall|p: int, t: nat| t < nfa.counter() + 1 implies (entries_reach(entries@, p, t) <==>
                            exists|s2: nat| s2 < s + 1 && m@[s2 as int] && #[trigger] leads_to(*nfa, s2, p, t)) by {
                            lemma_leads_by_entry(*nfa, s as nat, p, t);
                            if exists|s2: nat| s2 < s + 1 && m@[s2 as int] && #[trigger] leads_to(*nfa, s2, p, t) {
                                let s2 = choose|s2: nat| s2 < s + 1 && m@[s2 as int] && #[trigger] leads_to(*nfa, s2, p, t);
                                if s2 < s {
                                    assert(exists|s3: nat| s3 < s && m@[s3 as int] && #[trigger] leads_to(*nfa, s3, p, t));
                                }
                            }
                        }
                    }
                },
            }
        } else {
            proof {
                assert forall|p: int, t: nat| t < nfa.counter() + 1 implies (entries_reach(entries@, p, t) <==>
                    exists|s2: nat| s2 < s + 1 && m@[s2 as int] && #[trigger] leads_to(*nfa, s2, p, t)) by {
                    if exists|s2: nat| s2 < s + 1 && m@[s2 as int] && #[trigger] leads_to(*nfa, s2, p, t) {
                        let s2 = choose|s2: nat| s2 < s + 1 && m@[s2 as int] && #[trigger] leads_to(*nfa, s2, p, t);
                        if s2 < s {
                            assert(exists|s3: nat| s3 < s && m@[s3 as int] && #[trigger] leads_to(*nfa, s3, p, t));
                        }
                    }
                }
            }
        }
        s = s + 1;
    }
    entries
}


/// Adding the transitions of the marked state `s` to the entries of the
/// states before it gives the entries of the states up to it.
proof fn lemma_add_source<T: Endpoint, AV>(
    nfa: NFA<T, AV>,
    m: Seq<bool>,
    s: nat,
    before: Seq<(Interval<T>, Vec<bool>)>,
    after: Seq<(Interval<T>, Vec<bool>)>,
    p: int,
    t: nat,
)
    requires
        s < m.len(),
        m[s as int],
        entries_reach(before, p, t) <==> exists|s2: nat| s2 < s && m[s2 as int] && #[trigger] leads_to(nfa, s2, p, t),
        entries_reach(after, p, t) <==> (entries_reach(before, p, t)
            || exists|j: int| 0 <= j < nfa.transitions_at(s).len() && #[trigger] entry_leads(nfa, s, j, p, t)),
    ensures
        entries_reach(after, p, t) <==> exists|s2: nat| s2 < s + 1 && m[s2 as int] && #[trigger] leads_to(nfa, s2, p, t),
{
    lemma_leads_by_entry(nfa, s, p, t);
    if exists|s2: nat| s2 < s + 1 && m[s2 as int] && #[trigger] leads_to(nfa, s2, p, t) {
        let s2 = choose|s2: nat| s2 < s + 1 && m[s2 as int] && #[trigger] leads_to(nfa, s2, p, t);
        if s2 < s {
            assert(exists|s3: nat| s3 < s && m[s3 as int] && #[trigger] leads_to(nfa, s3, p, t));
        }
    }
    if entries_reach(after, p, t) {
        if entries_reach(before, p, t) {
            let s2 = choose|s2: nat| s2 < s && m[s2 as int] && #[trigger] leads_to(nfa, s2, p, t);
            assert(s2 < s + 1);
        } else {
            assert(leads_to(nfa, s, p, t));
        }
    }
}

/// `x` is where one of the entries' intervals starts or ends.
pub open spec fn is_cut<T: Endpoint>(entries: Seq<(Interval<T>, Vec<bool>)>, x: int) -> bool {
    exists|k: int| 0 <= k < entries.len() && ((#[trigger] entries[k]).0.lo() == Some(x) || entries[k].0.hi() == Some(x))
}

/// The interval holds every point from the lower cut `c` up to the upper
/// cut `n`.
pub open spec fn spans<T: Endpoint>(iv: Interval<T>, c: Option<int>, n: Option<int>) -> bool {
    !lo_lt(c, iv.lo()) && !hi_lt(iv.hi(), n)
}

/// `x` is a finite cut after the lower cut `c`.
pub open spec fn cut_after(c: Option<int>, x: Option<int>) -> bool {
    x is Some && lo_lt(c, x)
}

/// The first cut of the entries after the cut of `cur`, as the lower bound
/// starting there; none if no cut lies after it.
fn next_cut<T: Endpoint>(entries: &Vec<(Interval<T>, Vec<bool>)>, cur: &LowerBound<T>) -> (r: Option<LowerBound<T>>)
    ensures
        match r {
            None => forall|x: int| #[trigger] is_cut(entries@, x) ==> !lo_lt(cur.cut(), Some(x)),
            Some(b) => {
                &&& b.cut() is Some
                &&& lo_lt(cur.cut(), b.cut())
                &&& is_cut(entries@, b.cut().unwrap())
                &&& forall|x: int| #[trigger] is_cut(entries@, x) && lo_lt(cur.cut(), Some(x)) ==> b.cut().unwrap() <= x
            },
        },
{
    let mut best: Option<LowerBound<T>> = None;
    let mut k: usize = 0;
    while k < entries.len()
        invariant
            k <= entries@.len(),
            match best {
                None => forall|j: int| 0 <= j < k ==> !cut_after(cur.cut(), (#[trigger] entries@[j]).0.lo())
                    && !cut_after(cur.cut(), entries@[j].0.hi()),
                Some(b) => {
                    &&& b.cut() is Some
                    &&& lo_lt(cur.cut(), b.cut())
                    &&& is_cut(entries@, b.cut().unwrap())
                    &&& forall|j: int| 0 <= j < k ==> (cut_after(cur.cut(), (#[trigger] entries@[j]).0.lo())
                        ==> b.cut().unwrap() <= entries@[j].0.lo().unwrap())
                        && (cut_after(cur.cut(), entries@[j].0.hi()) ==> b.cut().unwrap() <= entries@[j].0.hi().unwrap())
                },
            },
        decreases entries@.len() - k,
    {
        let iv = entries[k].0;
        let ghost best0 = best;
        if !iv.lower.is_unbounded() && cur.is_less(&iv.lower) {
            let better = match &best {
                None => true,
                Some(b) => iv.lower.is_less(b),
            };
            if better {
                best = Some(iv.lower);
            }
        }
        let ghost best1 = best;
        match iv.upper.touching() {
            Some(u) => {
                if cur.is_less(&u) {
                    let better = match &best {
                        None => true,
                        Some(b) => u.is_less(b),
                    };
                    if better {
                        best = Some(u);
                    }
                }
            },
            None => {},
        }
        proof {
            assert(entries@[k as int].0 == iv);
            if iv.lo() is Some {
                assert(is_cut(entries@, iv.lo().unwrap()));
            }
            if iv.hi() is Some {
                assert(is_cut(entries@, iv.hi().unwrap()));
            }
        }
        k = k + 1;
    }
    proof {
        match best {
            None => {
                assert forall|x: int| #[trigger] is_cut(entries@, x) implies !lo_lt(cur.cut(), Some(x)) by {
                    let j = choose|j: int| 0 <= j < entries@.len() && ((#[trigger] entries@[j]).0.lo() == Some(x) || entries@[j].0.hi() == Some(x));
                    assert(!cut_after(cur.cut(), entries@[j].0.lo()) && !cut_after(cur.cut(), entries@[j].0.hi()));
                }
            },
            Some(b) => {
                assert forall|x: int| #[trigger] is_cut(entries@, x) && lo_lt(cur.cut(), Some(x)) implies b.cut().unwrap() <= x by {
                    let j = choose|j: int| 0 <= j < entries@.len() && ((#[trigger] entries@[j]).0.lo() == Some(x) || entries@[j].0.hi() == Some(x));
                    assert(entries@[j].0.lo() == Some(x) ==> cut_after(cur.cut(), entries@[j].0.lo()));
                    assert(entries@[j].0.hi() == Some(x) ==> cut_after(cur.cut(), entries@[j].0.hi()));
                }
            },
        }
    }
    best
}

/// The union of the marks of the entries whose interval spans the segment
/// from `lo` to `hi`.
fn segment_targets<T: Endpoint>(entries: &Vec<(Interval<T>, Vec<bool>)>, lo: &LowerBound<T>, hi: &UpperBound<T>, n: usize) -> (r: Vec<bool>)
    requires
        forall|k: int| 0 <= k < entries@.len() ==> (#[trigger] entries@[k]).1@.len() == n,
    ensures
        r@.len() == n,
        forall|t: nat| t < n ==> (r@[t as int] <==> exists|k: int| 0 <= k < entries@.len()
            && spans((#[trigger] entries@[k]).0, lo.cut(), hi.cut()) && entries@[k].1@[t as int]),
{
    let mut marks: Vec<bool> = Vec::new();
    let mut i: usize = 0;
    while i < n
        invariant
            i <= n,
            marks@.len() == i,
            forall|j: int| 0 <= j < i ==> !marks@[j],
        decreases n - i,
    {
        marks.push(false);
        i = i + 1;
    }
    let mut k: usize = 0;
    while k < entries.len()
        invariant
            k <= entries@.len(),
            marks@.len() == n,
            forall|j: int| 0 <= j < entries@.len() ==> (#[trigger] entries@[j]).1@.len() == n,
            forall|t: nat| t < n ==> (marks@[t as int] <==> exists|j: int| 0 <= j < k
                && spans((#[trigger] entries@[j]).0, lo.cut(), hi.cut()) && entries@[j].1@[t as int]),
        decreases entries@.len() - k,
    {
        let iv = entries[k].0;
        let ghost before = marks@;
        let takes = !lo.is_less(&iv.lower) && !iv.upper.is_less(hi);
        if takes {
            let ds = &entries[k].1;
            let mut t: usize = 0;
            while t < n
                invariant
                    t <= n,
                    marks@.len() == n,
                    before.len() == n,
                    ds@.len() == n,
                    forall|x: int| 0 <= x < t ==> marks@[x] == (before[x] || ds@[x]),
                    forall|x: int| t <= x < n ==> marks@[x] == before[x],
                decreases n - t,
            {
                let ghost m0 = marks@;
                if ds[t] {
                    marks.set(t, true);
                }
                let ghost t0 = t as int;
                t = t + 1;
                proof {
                    assert(marks@[t0] == (before[t0] || ds@[t0]));
                    assert forall|x: int| 0 <= x < t implies marks@[x] == (before[x] || ds@[x]) by {
                        if x < t0 {
                            assert(marks@[x] == m0[x]);
                        }
                    }
                    assert forall|x: int| t <= x < n implies marks@[x] == before[x] by {
                        assert(marks@[x] == m0[x]);
                    }
                }
            }
        }
        let ghost k0 = k as int;
        k = k + 1;
        proof {
            assert(entries@[k0].0 == iv);
            assert(takes == spans(entries@[k0].0, lo.cut(), hi.cut()));
            assert forall|x: nat| x < n implies (marks@[x as int] <==> exists|j: int| 0 <= j < k
                && spans((#[trigger] entries@[j]).0, lo.cut(), hi.cut()) && entries@[j].1@[x as int]) by {
                assert(before[x as int] <==> exists|j: int| 0 <= j < k0
                    && spans((#[trigger] entries@[j]).0, lo.cut(), hi.cut()) && entries@[j].1@[x as int]);
                assert(marks@[x as int] == (before[x as int] || (takes && entries@[k0].1@[x as int])));
                if exists|j: int| 0 <= j < k && spans((#[trigger] entries@[j]).0, lo.cut(), hi.cut()) && entries@[j].1@[x as int] {
                    let j = choose|j: int| 0 <= j < k && spans((#[trigger] entries@[j]).0, lo.cut(), hi.cut()) && entries@[j].1@[x as int];
                    if j < k0 {
                        assert(exists|j2: int| 0 <= j2 < k0 && spans((#[trigger] entries@[j2]).0, lo.cut(), hi.cut()) && entries@[j2].1@[x as int]);
                    }
                }
                if before[x as int] {
                    let j = choose|j: int| 0 <= j < k0 && spans((#[trigger] entries@[j]).0, lo.cut(), hi.cut()) && entries@[j].1@[x as int];
                    assert(0 <= j < k);
                }
            }
        }
    }
    marks
}

/// Between a cut and the next one, an interval of the entries holds every
/// point or none: it holds a point there exactly when it spans the segment.
proof fn lemma_segment_uniform<T: Endpoint>(entries: Seq<(Interval<T>, Vec<bool>)>, c: Option<int>, n: Option<int>, k: int, p: int)
    requires
        0 <= k < entries.len(),
        lo_le_pt(c, p),
        pt_lt_hi(p, n),
        forall|x: int| #[trigger] is_cut(entries, x) && lo_lt(c, Some(x)) ==> (n is Some && n.unwrap() <= x),
    ensures
        entries[k].0.has_point(p) <==> spans(entries[k].0, c, n),
{
    let iv = entries[k].0;
    match iv.lo() {
        Some(x) => {
            assert(is_cut(entries, x));
        },
        None => {},
    }
    match iv.hi() {
        Some(x) => {
            assert(is_cut(entries, x));
        },
        None => {},
    }
}


/// `n` unmarked entries.
fn unmarked(n: usize) -> (r: Vec<bool>)
    ensures
        r@.len() == n,
        forall|t: int| 0 <= t < n ==> !r@[t],
{
    let mut marks: Vec<bool> = Vec::new();
    let mut i: usize = 0;
    while i < n
        invariant
            i <= n,
            marks@.len() == i,
            forall|j: int| 0 <= j < i ==> !marks@[j],
        decreases n - i,
    {
        marks.push(false);
        i = i + 1;
    }
    marks
}

/// The two mark vectors are the same.
fn same_marks(a: &Vec<bool>, b: &Vec<bool>) -> (r: bool)
    ensures
        r == (a@ == b@),
{
    if a.len() != b.len() {
        return false;
    }
    let mut i: usize = 0;
    while i < a.len()
        invariant
            a@.len() == b@.len(),
            i <= a@.len(),
            forall|j: int| 0 <= j < i ==> a@[j] == b@[j],
        decreases a@.len() - i,
    {
        if a[i] != b[i] {
            return false;
        }
        i = i + 1;
    }
    proof {
        assert(a@ =~= b@);
    }
    true
}

/// The index of the mark vector equal to `m`, if there is one.
fn find_set(sets: &Vec<Vec<bool>>, m: &Vec<bool>) -> (r: Option<usize>)
    ensures
        match r {
            Some(i) => i < sets@.len() && sets@[i as int]@ == m@,
            None => forall|i: int| 0 <= i < sets@.len() ==> (#[trigger] sets@[i])@ != m@,
        },
{
    let mut i: usize = 0;
    while i < sets.len()
        invariant
            i <= sets@.len(),
            forall|j: int| 0 <= j < i ==> (#[trigger] sets@[j])@ != m@,
        decreases sets@.len() - i,
    {
        if same_marks(&sets[i], m) {
            return Some(i);
        }
        i = i + 1;
    }
    None
}

/// Some entry is marked.
fn any_marked(m: &Vec<bool>) -> (r: bool)
    ensures
        r == !marked(m@).is_empty(),
{
    let mut i: usize = 0;
    while i < m.len()
        invariant
            i <= m@.len(),
            forall|j: int| 0 <= j < i ==> !m@[j],
        decreases m@.len() - i,
    {
        if m[i] {
            proof {
                assert(marked(m@).contains(i as nat));
            }
            return true;
        }
        i = i + 1;
    }
    proof {
        if !marked(m@).is_empty() {
            let t = marked(m@).choose();
            assert(marked(m@).contains(t));
        }
    }
    false
}

/// Mark vectors of one length marking the same states are the same.
proof fn lemma_marked_injective(a: Seq<bool>, b: Seq<bool>)
    requires
        a.len() == b.len(),
        marked(a) == marked(b),
    ensures
        a == b,
{
    assert forall|t: int| 0 <= t < a.len() implies a[t] == b[t] by {
        assert(marked(a).contains(t as nat) <==> a[t]);
        assert(marked(b).contains(t as nat) <==> b[t]);
        assert(marked(a).contains(t as nat) == marked(b).contains(t as nat));
    }
    assert(a =~= b);
}

/// The accepting values of the NFA states of `set` below `k`, in ascending
/// order of the states.
pub open spec fn accepting_values_below<T: Endpoint, AV>(nfa: NFA<T, AV>, set: Set<nat>, k: nat) -> Seq<AV>
    decreases k,
{
    if k == 0 {
        Seq::empty()
    } else {
        let rest = accepting_values_below(nfa, set, (k - 1) as nat);
        if set.contains((k - 1) as nat) && nfa.accepting_at((k - 1) as nat) is Some {
            rest.push(nfa.accepting_at((k - 1) as nat).unwrap())
        } else {
            rest
        }
    }
}

/// The accepting values of the NFA states of `set`, in ascending order of
/// the states.
pub open spec fn accepting_values<T: Endpoint, AV>(nfa: NFA<T, AV>, set: Set<nat>) -> Seq<AV> {
    accepting_values_below(nfa, set, nfa.counter() + 1)
}

/// `w` is what `unify` answers, folded from the left, over copies of the
/// values `vals`: the first value, unified with the second, that with the
/// third, and so on.
pub open spec fn folded<AV: Clone, F: Fn(AV, AV) -> AV>(unify: F, vals: Seq<AV>, w: AV) -> bool
    decreases vals.len(),
{
    if vals.len() <= 1 {
        vals.len() == 1 && copy_of(vals[0], w)
    } else {
        exists|a: AV, c: AV|
            folded(unify, vals.drop_last(), a) && copy_of(vals.last(), c) && #[trigger] call_ensures(unify, (a, c), w)
    }
}

/// `r` is no value for no values, and else their fold by `unify`.
pub open spec fn folds_to<AV: Clone, F: Fn(AV, AV) -> AV>(unify: F, vals: Seq<AV>, r: Option<AV>) -> bool {
    if vals.len() == 0 {
        r is None
    } else {
        r is Some && folded(unify, vals, r.unwrap())
    }
}

/// Every state `d` of the automaton accepts with the fold by `unify` of the
/// accepting values of the NFA states of `sets[d]`.
pub open spec fn accepting_folds<T: Endpoint, AV: Clone, F: Fn(AV, AV) -> AV>(
    dfa: Automaton<T, AV>,
    unify: F,
    nfa: NFA<T, AV>,
    sets: Seq<Set<nat>>,
) -> bool {
    forall|d: nat| d < sets.len() ==> folds_to(unify, accepting_values(nfa, sets[d as int]), #[trigger] dfa.accepting_at(d))
}

/// The accepting value of a set of NFA states: none if none of them accepts,
/// else the values of the accepting ones, in ascending order of the states,
/// unified one after the other.
fn accepting_of<T: Endpoint, AV: Clone, F: Fn(AV, AV) -> AV>(nfa: &NFA<T, AV>, m: &Vec<bool>, unify: &F) -> (r: Option<AV>)
    requires
        nfa.inv(),
        m@.len() == nfa.counter() + 1,
        forall|a: AV, b: AV| call_requires(*unify, (a, b)),
    ensures
        r is Some <==> exists|s: nat| marked(m@).contains(s) && (#[trigger] nfa.accepting_at(s)) is Some,
        folds_to(*unify, accepting_values(*nfa, marked(m@)), r),
{
    let states = nfa.states();
    let mut acc: Option<AV> = None;
    let mut s: usize = 0;
    while s < m.len()
        invariant
            nfa.inv(),
            m@.len() == nfa.counter() + 1,
            states@.len() == nfa.counter() + 1,
            forall|i: int| 0 <= i < states@.len() ==> (#[trigger] states@[i]).index() == i,
            forall|a: AV, b: AV| call_requires(*unify, (a, b)),
            s <= m@.len(),
            acc is Some <==> exists|s2: nat| s2 < s && m@[s2 as int] && (#[trigger] nfa.accepting_at(s2)) is Some,
            folds_to(*unify, accepting_values_below(*nfa, marked(m@), s as nat), acc),
        decreases m@.len() - s,
    {
        let ghost prev = accepting_values_below(*nfa, marked(m@), s as nat);
        proof {
            assert(states@[s as int].index() == s);
            assert(marked(m@).contains(s as nat) == m@[s as int]);
        }
        if m[s] {
            match nfa.accepting_value(&states[s]) {
                Some(v) => {
                    let c = v.clone();
                    proof {
                        assert(copy_of(*v, c));
                        assert(accepting_values_below(*nfa, marked(m@), (s + 1) as nat) == prev.push(*v));
                    }
                    acc = match acc {
                        None => {
                            proof {
                                assert(prev.len() == 0);
                                assert(prev.push(*v)[0] == *v);
                            }
                            Some(c)
                        },
                        Some(a) => {
                            let ghost ga = a;
                            let w = unify(a, c);
                            proof {
                                let vals = prev.push(*v);
                                assert(vals.drop_last() =~= prev);
                                assert(folded(*unify, vals.drop_last(), ga) && copy_of(vals.last(), c) && call_ensures(*unify, (ga, c), w));
                            }
                            Some(w)
                        },
                    };
                },
                None => {},
            }
        }
        proof {
            assert(states@[s as int].index() == s);
            if exists|s2: nat| s2 < s + 1 && m@[s2 as int] && (#[trigger] nfa.accepting_at(s2)) is Some {
                let s2 = choose|s2: nat| s2 < s + 1 && m@[s2 as int] && (#[trigger] nfa.accepting_at(s2)) is Some;
                if s2 < s {
                    assert(exists|s3: nat| s3 < s && m@[s3 as int] && (#[trigger] nfa.accepting_at(s3)) is Some);
                }
            }
        }
        s = s + 1;
    }
    proof {
        if exists|s2: nat| marked(m@).contains(s2) && (#[trigger] nfa.accepting_at(s2)) is Some {
            let s2 = choose|s2: nat| marked(m@).contains(s2) && (#[trigger] nfa.accepting_at(s2)) is Some;
            assert(s2 < s && m@[s2 as int]);
        }
        if acc is Some {
            let s2 = choose|s2: nat| s2 < s && m@[s2 as int] && (#[trigger] nfa.accepting_at(s2)) is Some;
            assert(marked(m@).contains(s2));
        }
    }
    acc
}

/// The number of cuts of the entries' intervals after the lower cut `c`,
/// counted once per interval end.
pub open spec fn cuts_after<T: Endpoint>(entries: Seq<(Interval<T>, Vec<bool>)>, c: Option<int>) -> nat
    decreases entries.len(),
{
    if entries.len() == 0 {
        0
    } else {
        cuts_after(entries.drop_last(), c) + (if cut_after(c, entries.last().0.lo()) { 1nat } else { 0nat })
            + (if cut_after(c, entries.last().0.hi()) { 1nat } else { 0nat })
    }
}

/// Moving the cut forward past a cut of the entries lowers the count.
proof fn lemma_cuts_after_decrease<T: Endpoint>(entries: Seq<(Interval<T>, Vec<bool>)>, c: Option<int>, b: int)
    requires
        lo_lt(c, Some(b)),
        is_cut(entries, b),
    ensures
        cuts_after(entries, Some(b)) < cuts_after(entries, c),
    decreases entries.len(),
{
    let n = entries.len() as int;
    let last = entries.last();
    let rest = entries.drop_last();
    lemma_cuts_after_mono(rest, c, b);
    let k = choose|k: int| 0 <= k < entries.len() && ((#[trigger] entries[k]).0.lo() == Some(b) || entries[k].0.hi() == Some(b));
    if k < n - 1 {
        assert(rest[k] == entries[k]);
        assert(is_cut(rest, b));
        lemma_cuts_after_decrease(rest, c, b);
    }
}

/// Moving the cut forward never raises the count.
proof fn lemma_cuts_after_mono<T: Endpoint>(entries: Seq<(Interval<T>, Vec<bool>)>, c: Option<int>, b: int)
    requires
        lo_lt(c, Some(b)),
    ensures
        cuts_after(entries, Some(b)) <= cuts_after(entries, c),
    decreases entries.len(),
{
    if entries.len() > 0 {
        lemma_cuts_after_mono(entries.drop_last(), c, b);
    }
}


/// The sets of NFA states the mark vectors stand for.
pub open spec fn set_views(sets: Seq<Vec<bool>>) -> Seq<Set<nat>> {
    Seq::new(sets.len(), |i: int| marked(sets[i]@))
}

/// Between the cuts `c` and `n`, the segment's targets are what the set of
/// NFA states `m` leads to on any point of the segment.
proof fn lemma_segment_step<T: Endpoint, AV>(
    nfa: NFA<T, AV>,
    m: Seq<bool>,
    entries: Seq<(Interval<T>, Vec<bool>)>,
    targets: Seq<bool>,
    c: Option<int>,
    n: Option<int>,
    p: int,
)
    requires
        nfa.inv(),
        m.len() == nfa.counter() + 1,
        targets.len() == nfa.counter() + 1,
        forall|k: int| 0 <= k < entries.len() ==> (#[trigger] entries[k]).1@.len() == nfa.counter() + 1,
        forall|q: int, t: nat| t < nfa.counter() + 1 ==> (entries_reach(entries, q, t) <==> exists|s: nat| marked(m).contains(s) && #[trigger] leads_to(nfa, s, q, t)),
        forall|t: nat| t < nfa.counter() + 1 ==> (targets[t as int] <==> exists|k: int| 0 <= k < entries.len()
            && spans((#[trigger] entries[k]).0, c, n) && entries[k].1@[t as int]),
        forall|x: int| #[trigger] is_cut(entries, x) && lo_lt(c, Some(x)) ==> (n is Some && n.unwrap() <= x),
        lo_le_pt(c, p),
        pt_lt_hi(p, n),
    ensures
        marked(targets) == step_set(nfa, marked(m), p),
{
    assert forall|t: nat| marked(targets).contains(t) <==> step_set(nfa, marked(m), p).contains(t) by {
        if step_set(nfa, marked(m), p).contains(t) {
            let s = choose|s: nat| marked(m).contains(s) && #[trigger] leads_to(nfa, s, p, t);
            let u = choose|u: NfaState| nfa.steps_to(s, p, u) && nfa.eps_reaches(u.index(), t);
            nfa.lemma_step_bounded(s, p, u);
            nfa.lemma_reaches_bounded(u.index(), t);
        }
        if t < nfa.counter() + 1 {
            if entries_reach(entries, p, t) {
                let k = choose|k: int| 0 <= k < entries.len() && (#[trigger] entries[k]).0.has_point(p) && t < entries[k].1@.len() && entries[k].1@[t as int];
                lemma_segment_uniform(entries, c, n, k, p);
            }
            if targets[t as int] {
                let k = choose|k: int| 0 <= k < entries.len() && spans((#[trigger] entries[k]).0, c, n) && entries[k].1@[t as int];
                lemma_segment_uniform(entries, c, n, k, p);
                assert(entries_reach(entries, p, t));
            }
        }
    }
    assert(marked(targets) =~= step_set(nfa, marked(m), p));
}

impl<T: Endpoint, AcceptingValue> Automaton<T, AcceptingValue> {
    /// The state `d` moves exactly on the points where the NFA states of
    /// `sets[d]` lead somewhere, and to the state whose set is where they
    /// lead.
    pub open spec fn follows<NV>(&self, nfa: NFA<T, NV>, sets: Seq<Set<nat>>, d: nat) -> bool {
        &&& forall|p: int| #[trigger] self.moves(d, p) <==> !step_set(nfa, sets[d as int], p).is_empty()
        &&& forall|p: int, t: nat| #[trigger] self.moves_to(d, p, t) ==> t < sets.len() && sets[t as int] == step_set(nfa, sets[d as int], p)
    }

    /// The state `d` accepts exactly when an NFA state of `sets[d]` does.
    pub open spec fn accepts_as<NV>(&self, nfa: NFA<T, NV>, sets: Seq<Set<nat>>, d: nat) -> bool {
        (self.accepting_at(d) is Some) <==> exists|s: nat| sets[d as int].contains(s) && (#[trigger] nfa.accepting_at(s)) is Some
    }

    /// `self` is the subset construction of `nfa`, state `d` standing for the
    /// set `sets[d]` of NFA states: the start stands for what the NFA's start
    /// reaches by epsilon transitions, each set is reached by some input and
    /// stands for one state only, and every state moves and accepts as its
    /// set does.
    pub open spec fn determinizes<NV>(&self, nfa: NFA<T, NV>, sets: Seq<Set<nat>>) -> bool {
        &&& sets.len() == self.counter() + 1
        &&& sets[0] == closure_set(nfa, nfa.start_state().index())
        &&& sets.no_duplicates()
        &&& forall|d: int| 0 <= d < sets.len() ==> reachable_set(nfa, #[trigger] sets[d])
        &&& forall|d: nat| d < sets.len() ==> #[trigger] self.follows(nfa, sets, d)
        &&& forall|d: nat| d < sets.len() ==> #[trigger] self.accepts_as(nfa, sets, d)
    }
}


impl<T: Endpoint, AcceptingValue> Automaton<T, AcceptingValue> {
    /// What holds of the automaton under construction: `sets` are the sets
    /// of NFA states its states stand for, and the states on `stack` have
    /// no transitions yet.
    pub open spec fn construction(&self, nfa: NFA<T, AcceptingValue>, sets: Seq<Vec<bool>>, stack: Seq<usize>) -> bool {
        &&& self.inv()
        &&& nfa.inv()
        &&& sets.len() == self.counter() + 1
        &&& sets.len() <= usize::MAX + 1
        &&& forall|i: int| 0 <= i < sets.len() ==> (#[trigger] sets[i])@.len() == nfa.counter() + 1
        &&& set_views(sets)[0] == closure_set(nfa, nfa.start_state().index())
        &&& forall|i: int| 0 <= i < sets.len() ==> reachable_set(nfa, #[trigger] set_views(sets)[i])
        &&& set_views(sets).no_duplicates()
        &&& stack.no_duplicates()
        &&& forall|k: int| 0 <= k < stack.len() ==> (#[trigger] stack[k]) < sets.len()
        &&& forall|k: int| 0 <= k < stack.len() ==> self.transitions_at((#[trigger] stack[k]) as nat).len() == 0
        &&& forall|d: nat| d < sets.len() ==> #[trigger] self.accepts_as(nfa, set_views(sets), d)
    }
}

/// Adding a set keeps what the states of the old ones follow.
proof fn lemma_follows_grow<T: Endpoint, AV>(
    a: Automaton<T, AV>,
    b: Automaton<T, AV>,
    nfa: NFA<T, AV>,
    sets: Seq<Set<nat>>,
    sets2: Seq<Set<nat>>,
    d: nat,
)
    requires
        d < sets.len(),
        a.follows(nfa, sets, d),
        sets.len() <= sets2.len(),
        forall|i: int| 0 <= i < sets.len() ==> sets2[i] == sets[i],
        b.transitions_at(d) == a.transitions_at(d),
    ensures
        b.follows(nfa, sets2, d),
{
    assert forall|p: int| #[trigger] b.moves(d, p) <==> !step_set(nfa, sets2[d as int], p).is_empty() by {
        assert(b.moves(d, p) == a.moves(d, p));
    }
    assert forall|p: int, t: nat| #[trigger] b.moves_to(d, p, t) implies t < sets2.len() && sets2[t as int] == step_set(nfa, sets2[d as int], p) by {
        assert(b.moves_to(d, p, t) == a.moves_to(d, p, t));
    }
}

impl<T: Endpoint, AcceptingValue: Clone> Automaton<T, AcceptingValue> {
    /// The state standing for the set `targets`: the one there is, or a new
    /// one, which goes on the stack, accepting as its set does.
    fn register<F: Fn(AcceptingValue, AcceptingValue) -> AcceptingValue>(
        &mut self,
        nfa: &NFA<T, AcceptingValue>,
        sets: &mut Vec<Vec<bool>>,
        stack: &mut Vec<usize>,
        targets: Vec<bool>,
        unify: &F,
    ) -> (to: usize)
        requires
            old(self).construction(*nfa, old(sets)@, old(stack)@),
            accepting_folds(*old(self), *unify, *nfa, set_views(old(sets)@)),
            targets@.len() == nfa.counter() + 1,
            reachable_set(*nfa, marked(targets@)),
            forall|a: AcceptingValue, b: AcceptingValue| call_requires(*unify, (a, b)),
        ensures
            final(self).construction(*nfa, final(sets)@, final(stack)@),
            accepting_folds(*final(self), *unify, *nfa, set_views(final(sets)@)),
            to < final(sets)@.len(),
            set_views(final(sets)@)[to as int] == marked(targets@),
            old(sets)@.len() <= final(sets)@.len(),
            forall|i: int| 0 <= i < old(sets)@.len() ==> final(sets)@[i] == old(sets)@[i],
            final(stack)@.len() == old(stack)@.len() + (final(sets)@.len() - old(sets)@.len()),
            forall|x: usize| #[trigger] final(stack)@.contains(x) ==> old(stack)@.contains(x) || x >= old(sets)@.len(),
            forall|x: usize| old(stack)@.contains(x) ==> #[trigger] final(stack)@.contains(x),
            forall|x: usize| old(sets)@.len() <= x < final(sets)@.len() ==> #[trigger] final(stack)@.contains(x),
            forall|s: nat| #[trigger] final(self).transitions_at(s) == old(self).transitions_at(s),
            final(self).counter() + 1 == final(sets)@.len(),
    {
        let ghost sv = set_views(sets@);
        match find_set(sets, &targets) {
            Some(i) => {
                proof {
                    assert(set_views(sets@)[i as int] == marked(targets@));
                }
                i
            },
            None => {
                proof {
                    let fam = sv.push(marked(targets@));
                    assert forall|i: int, j: int| 0 <= i < fam.len() && 0 <= j < fam.len() && i != j implies fam[i] != fam[j] by {
                        if j == sv.len() && i < sv.len() {
                            if fam[i] == fam[j] {
                                lemma_marked_injective(sets@[i]@, targets@);
                            }
                        } else if i == sv.len() && j < sv.len() {
                            if fam[i] == fam[j] {
                                lemma_marked_injective(sets@[j]@, targets@);
                            }
                        } else {
                            assert(sv[i] != sv[j]);
                        }
                    }
                    assert(fam.no_duplicates());
                    assert forall|i: int| 0 <= i < fam.len() implies reachable_set(*nfa, #[trigger] fam[i]) by {
                        if i < sv.len() {
                            assert(fam[i] == set_views(sets@)[i]);
                        }
                    }
                }
                let acc = accepting_of(nfa, &targets, unify);
                let ghost tv = targets@;
                let ghost s0 = sets@;
                let ghost k0 = stack@;
                sets.push(targets);
                proof {
                    assert(sets@.len() <= usize::MAX) by {
                        assert(sets.len() == sets@.len());
                    }
                }
                let st = self.unique_state();
                match acc {
                    Some(v) => {
                        self.add_accepting_with_value(st, v);
                    },
                    None => {},
                }
                stack.push(st.0);
                proof {
                    let sv2 = set_views(sets@);
                    assert(sv2 =~= sv.push(marked(tv)));
                    assert forall|i: int| 0 <= i < sets@.len() implies reachable_set(*nfa, #[trigger] set_views(sets@)[i]) by {
                        if i < sv.len() {
                            assert(set_views(s0)[i] == sv2[i]);
                        }
                    }
                    assert forall|d: nat| d < sets@.len() implies #[trigger] self.accepts_as(*nfa, set_views(sets@), d) by {
                        if d < s0.len() {
                            assert(old(self).accepts_as(*nfa, sv, d));
                            assert(sv2[d as int] == sv[d as int]);
                        } else {
                            assert(d == st.index());
                        }
                    }
                    assert forall|d: nat| d < sets@.len() implies folds_to(*unify, accepting_values(*nfa, set_views(sets@)[d as int]), #[trigger] self.accepting_at(d)) by {
                        if d < s0.len() {
                            assert(folds_to(*unify, accepting_values(*nfa, sv[d as int]), old(self).accepting_at(d)));
                            assert(sv2[d as int] == sv[d as int]);
                        } else {
                            assert(d == st.index());
                            assert(sv2[d as int] == marked(tv));
                        }
                    }
                    assert forall|k: int| 0 <= k < stack@.len() implies self.transitions_at((#[trigger] stack@[k]) as nat).len() == 0 by {
                        if k < k0.len() {
                            assert(stack@[k] == k0[k]);
                        } else {
                            assert(old(self).transitions_at(st.index()).len() == 0);
                        }
                    }
                    assert forall|k: int| 0 <= k < stack@.len() implies (#[trigger] stack@[k]) < sets@.len() by {
                        if k < k0.len() {
                            assert(stack@[k] == k0[k]);
                        }
                    }
                    assert(!k0.contains(st.0)) by {
                        if k0.contains(st.0) {
                            let w = choose|w: int| 0 <= w < k0.len() && k0[w] == st.0;
                        }
                    }
                    assert(stack@.no_duplicates()) by {
                        assert forall|i: int, j: int| 0 <= i < stack@.len() && 0 <= j < stack@.len() && i != j implies stack@[i] != stack@[j] by {
                            if i < k0.len() && j < k0.len() {
                                assert(k0[i] != k0[j]);
                            } else if i < k0.len() {
                                assert(stack@[i] == k0[i]);
                                assert(k0.contains(k0[i]));
                            } else {
                                assert(stack@[j] == k0[j]);
                                assert(k0.contains(k0[j]));
                            }
                        }
                    }
                    assert forall|x: usize| #[trigger] stack@.contains(x) implies k0.contains(x) || x >= s0.len() by {
                        let w = choose|w: int| 0 <= w < stack@.len() && stack@[w] == x;
                        if w < k0.len() {
                            assert(k0[w] == x);
                        }
                    }
                    assert forall|x: usize| k0.contains(x) implies #[trigger] stack@.contains(x) by {
                        let w = choose|w: int| 0 <= w < k0.len() && k0[w] == x;
                        assert(stack@[w] == x);
                    }
                    assert(set_views(sets@)[0] == set_views(s0)[0]);
                    assert(sv2[st.index() as int] == marked(tv));
                    assert forall|x: usize| s0.len() <= x < sets@.len() implies #[trigger] stack@.contains(x) by {
                        assert(x == st.0);
                        assert(stack@[stack@.len() - 1] == x);
                    }
                }
                st.0
            },
        }
    }
}


impl<T: Endpoint, AcceptingValue: Clone> Automaton<T, AcceptingValue> {
    /// Gives the state `d`, standing for the NFA states `md`, its
    /// transitions: one for each segment between consecutive cuts of the
    /// transitions leaving those NFA states, on which they lead somewhere.
    fn determinize_state<F: Fn(AcceptingValue, AcceptingValue) -> AcceptingValue>(
        &mut self,
        nfa: &NFA<T, AcceptingValue>,
        sets: &mut Vec<Vec<bool>>,
        stack: &mut Vec<usize>,
        d: usize,
        unify: &F,
    )
        requires
            old(self).construction(*nfa, old(sets)@, old(stack)@),
            accepting_folds(*old(self), *unify, *nfa, set_views(old(sets)@)),
            d < old(sets)@.len(),
            !old(stack)@.contains(d),
            old(self).transitions_at(d as nat).len() == 0,
            forall|a: AcceptingValue, b: AcceptingValue| call_requires(*unify, (a, b)),
        ensures
            final(self).construction(*nfa, final(sets)@, final(stack)@),
            accepting_folds(*final(self), *unify, *nfa, set_views(final(sets)@)),
            old(sets)@.len() <= final(sets)@.len(),
            forall|i: int| 0 <= i < old(sets)@.len() ==> final(sets)@[i] == old(sets)@[i],
            final(stack)@.len() == old(stack)@.len() + (final(sets)@.len() - old(sets)@.len()),
            forall|x: usize| #[trigger] final(stack)@.contains(x) ==> old(stack)@.contains(x) || x >= old(sets)@.len(),
            forall|x: usize| old(stack)@.contains(x) ==> #[trigger] final(stack)@.contains(x),
            forall|x: usize| old(sets)@.len() <= x < final(sets)@.len() ==> #[trigger] final(stack)@.contains(x),
            forall|s: nat| s != d ==> #[trigger] final(self).transitions_at(s) == old(self).transitions_at(s),
            final(self).follows(*nfa, set_views(final(sets)@), d as nat),
    {
        let ghost md = sets@[d as int]@;
        let ghost sets0 = sets@;
        let ghost stack0 = stack@;
        let ghost dfa0 = *self;
        let n = nfa.states().len();
        let entries = collect_entries(nfa, &sets[d]);
        let mut cur: LowerBound<T> = LowerBound::Unbounded;
        proof {
            assert forall|p: int| lo_le_pt(cur.cut(), p) implies !#[trigger] self.moves(d as nat, p) by {
                if self.moves(d as nat, p) {
                    let i = choose|i: int| 0 <= i < self.transitions_at(d as nat).len() && (#[trigger] self.transitions_at(d as nat)[i]).0.has_point(p);
                }
            }
        }
        loop
            invariant_except_break
                forall|p: int| !lo_le_pt(cur.cut(), p) ==> (#[trigger] self.moves(d as nat, p) <==> !step_set(*nfa, marked(md), p).is_empty()),
                forall|p: int, t: nat| !lo_le_pt(cur.cut(), p) && #[trigger] self.moves_to(d as nat, p, t) ==> t < sets@.len() && set_views(sets@)[t as int] == step_set(*nfa, marked(md), p),
                forall|p: int| lo_le_pt(cur.cut(), p) ==> !#[trigger] self.moves(d as nat, p),
            invariant
                self.construction(*nfa, sets@, stack@),
                accepting_folds(*self, *unify, *nfa, set_views(sets@)),
                forall|a: AcceptingValue, b: AcceptingValue| call_requires(*unify, (a, b)),
                n == nfa.counter() + 1,
                d < sets0.len(),
                !stack0.contains(d),
                sets0.len() <= sets@.len(),
                forall|i: int| 0 <= i < sets0.len() ==> sets@[i] == sets0[i],
                sets0[d as int]@ == md,
                stack@.len() == stack0.len() + (sets@.len() - sets0.len()),
                forall|x: usize| #[trigger] stack@.contains(x) ==> stack0.contains(x) || x >= sets0.len(),
                forall|x: usize| stack0.contains(x) ==> #[trigger] stack@.contains(x),
                forall|x: usize| sets0.len() <= x < sets@.len() ==> #[trigger] stack@.contains(x),
                forall|s: nat| s != d ==> #[trigger] self.transitions_at(s) == dfa0.transitions_at(s),
                forall|k: int| 0 <= k < entries@.len() ==> (#[trigger] entries@[k]).1@.len() == n && entries@[k].0.is_proper(),
                forall|q: int, t: nat| t < n ==> (entries_reach(entries@, q, t) <==> exists|s: nat| marked(md).contains(s) && #[trigger] leads_to(*nfa, s, q, t)),
            ensures
                self.construction(*nfa, sets@, stack@),
                accepting_folds(*self, *unify, *nfa, set_views(sets@)),
                sets0.len() <= sets@.len(),
                forall|i: int| 0 <= i < sets0.len() ==> sets@[i] == sets0[i],
                stack@.len() == stack0.len() + (sets@.len() - sets0.len()),
                forall|x: usize| #[trigger] stack@.contains(x) ==> stack0.contains(x) || x >= sets0.len(),
                forall|x: usize| stack0.contains(x) ==> #[trigger] stack@.contains(x),
                forall|x: usize| sets0.len() <= x < sets@.len() ==> #[trigger] stack@.contains(x),
                forall|s: nat| s != d ==> #[trigger] self.transitions_at(s) == dfa0.transitions_at(s),
                forall|p: int| #[trigger] self.moves(d as nat, p) <==> !step_set(*nfa, marked(md), p).is_empty(),
                forall|p: int, t: nat| #[trigger] self.moves_to(d as nat, p, t) ==> t < sets@.len() && set_views(sets@)[t as int] == step_set(*nfa, marked(md), p),
            decreases cuts_after(entries@, cur.cut()),
        {
            let next = next_cut(&entries, &cur);
            let hi: UpperBound<T> = match &next {
                Some(b) => match b.touching() {
                    Some(u) => u,
                    None => UpperBound::Unbounded,
                },
                None => UpperBound::Unbounded,
            };
            let ghost c = cur.cut();
            let ghost hn = hi.cut();
            proof {
                match next {
                    Some(b) => assert(hn == b.cut()),
                    None => assert(hn is None),
                }
            }
            let targets = segment_targets(&entries, &cur, &hi, n);
            let seg = Interval::with_bounds(cur, hi);
            proof {
                assert(seg.lo() == c && seg.hi() == hn);
                assert(seg.is_proper());
                assert forall|p: int| seg.has_point(p) implies marked(targets@) == step_set(*nfa, marked(md), p) by {
                    lemma_segment_step(*nfa, md, entries@, targets@, c, hn, p);
                }
            }
            let ghost before = *self;
            let ghost sets_b = sets@;
            if any_marked(&targets) {
                let ghost rep: int = match c {
                    Some(x) => x,
                    None => match hn {
                        Some(y) => y - 1,
                        None => 0,
                    },
                };
                proof {
                    assert(seg.has_point(rep));
                    assert(reachable_set(*nfa, set_views(sets@)[d as int]));
                    let ps = choose|ps: Seq<int>| #[trigger] run_set(*nfa, ps) == set_views(sets@)[d as int];
                    let path = ps.push(rep);
                    assert(path.drop_last() == ps);
                    assert(set_views(sets@)[d as int] == marked(md));
                    assert(run_set(*nfa, path) == marked(targets@));
                    assert(reachable_set(*nfa, marked(targets@)));
                }
                let to = self.register(nfa, sets, stack, targets, unify);
                let ghost mid = *self;
                proof {
                    assert forall|i: int| 0 <= i < mid.transitions_at(d as nat).len()
                        implies !intersects((#[trigger] mid.transitions_at(d as nat)[i]).0, seg) by {
                        let e = mid.transitions_at(d as nat)[i].0;
                        if intersects(e, seg) {
                            assert(mid.transitions_at(d as nat) == before.transitions_at(d as nat));
                            assert(sorted_wf(mid.transitions@[d as int].intervals@));
                            assert(e.is_proper());
                            let p = lemma_meeting_share_point(e, seg);
                            assert(mid.transitions_at(d as nat)[i].0.has_point(p));
                            assert(map_covers(before.transitions_at(d as nat), p));
                            assert(before.moves(d as nat, p));
                            assert(lo_le_pt(c, p));
                        }
                    }
                }
                self.add_transition(State(d), seg, State(to));
                proof {
                    lemma_construction_kept(mid, *self, *nfa, sets@, stack@, d as nat);
                    assert forall|d2: nat| d2 < sets@.len() implies folds_to(*unify, accepting_values(*nfa, set_views(sets@)[d2 as int]), #[trigger] self.accepting_at(d2)) by {
                        assert(self.accepting_at(d2) == mid.accepting_at(d2));
                    }
                }
            }
            let ghost after = *self;
            proof {
                assert forall|s: nat| s != d implies #[trigger] self.transitions_at(s) == dfa0.transitions_at(s) by {
                    assert(self.transitions_at(s) == before.transitions_at(s));
                }
                assert forall|p: int| seg.has_point(p) implies (#[trigger] self.moves(d as nat, p) <==> !step_set(*nfa, marked(md), p).is_empty()) by {
                    assert(marked(targets@) == step_set(*nfa, marked(md), p));
                }
                assert forall|p: int, t: nat| seg.has_point(p) && #[trigger] self.moves_to(d as nat, p, t) implies t < sets@.len() && set_views(sets@)[t as int] == step_set(*nfa, marked(md), p) by {
                    assert(marked(targets@) == step_set(*nfa, marked(md), p));
                    assert(!before.moves(d as nat, p));
                    if before.moves_to(d as nat, p, t) {
                        let i = choose|i: int| 0 <= i < before.transitions_at(d as nat).len() && (#[trigger] before.transitions_at(d as nat)[i]).0.has_point(p) && before.transitions_at(d as nat)[i].1.index() == t;
                        assert(before.moves(d as nat, p));
                    }
                }
                assert forall|p: int| !lo_le_pt(c, p) implies (#[trigger] self.moves(d as nat, p) <==> !step_set(*nfa, marked(md), p).is_empty()) by {
                    assert(!seg.has_point(p));
                    assert(before.moves(d as nat, p) <==> !step_set(*nfa, marked(md), p).is_empty());
                }
                assert forall|p: int, t: nat| !lo_le_pt(c, p) && #[trigger] self.moves_to(d as nat, p, t) implies t < sets@.len() && set_views(sets@)[t as int] == step_set(*nfa, marked(md), p) by {
                    assert(!seg.has_point(p));
                    assert(before.moves_to(d as nat, p, t));
                    assert(t < sets_b.len() && set_views(sets_b)[t as int] == step_set(*nfa, marked(md), p));
                    assert(set_views(sets@)[t as int] == set_views(sets_b)[t as int]);
                }
            }
            match next {
                None => {
                    proof {
                        assert forall|p: int| #[trigger] self.moves(d as nat, p) <==> !step_set(*nfa, marked(md), p).is_empty() by {
                            if lo_le_pt(c, p) {
                                assert(seg.has_point(p));
                            }
                        }
                        assert forall|p: int, t: nat| #[trigger] self.moves_to(d as nat, p, t) implies t < sets@.len() && set_views(sets@)[t as int] == step_set(*nfa, marked(md), p) by {
                            if lo_le_pt(c, p) {
                                assert(seg.has_point(p));
                            }
                        }
                    }
                    break;
                },
                Some(b) => {
                    proof {
                        lemma_cuts_after_decrease(entries@, c, b.cut().unwrap());
                    }
                    cur = b;
                    proof {
                        assert forall|p: int| !lo_le_pt(cur.cut(), p) implies (#[trigger] self.moves(d as nat, p) <==> !step_set(*nfa, marked(md), p).is_empty()) by {
                            if lo_le_pt(c, p) {
                                assert(seg.has_point(p));
                            }
                        }
                        assert forall|p: int, t: nat| !lo_le_pt(cur.cut(), p) && #[trigger] self.moves_to(d as nat, p, t) implies t < sets@.len() && set_views(sets@)[t as int] == step_set(*nfa, marked(md), p) by {
                            if lo_le_pt(c, p) {
                                assert(seg.has_point(p));
                            }
                        }
                        assert forall|p: int| lo_le_pt(cur.cut(), p) implies !#[trigger] self.moves(d as nat, p) by {
                            assert(!seg.has_point(p));
                            assert(!before.moves(d as nat, p));
                        }
                    }
                },
            }
        }
        proof {
            assert(set_views(sets@)[d as int] == marked(md));
        }
    }
}


/// Adding transitions to a state that is not on the stack keeps the
/// construction's invariant.
proof fn lemma_construction_kept<T: Endpoint, AV>(
    a: Automaton<T, AV>,
    b: Automaton<T, AV>,
    nfa: NFA<T, AV>,
    sets: Seq<Vec<bool>>,
    stack: Seq<usize>,
    d: nat,
)
    requires
        a.construction(nfa, sets, stack),
        b.inv(),
        b.counter() == a.counter(),
        forall|s: nat| #[trigger] b.accepting_at(s) == a.accepting_at(s),
        forall|s: nat| s != d ==> #[trigger] b.transitions_at(s) == a.transitions_at(s),
        !stack.contains(d as usize),
        d <= usize::MAX,
    ensures
        b.construction(nfa, sets, stack),
{
    assert forall|k: int| 0 <= k < stack.len() implies b.transitions_at((#[trigger] stack[k]) as nat).len() == 0 by {
        if stack[k] as nat == d {
            assert(stack.contains(d as usize));
        }
        assert(b.transitions_at(stack[k] as nat) == a.transitions_at(stack[k] as nat));
    }
    assert forall|s: nat| s < sets.len() implies #[trigger] b.accepts_as(nfa, set_views(sets), s) by {
        assert(a.accepts_as(nfa, set_views(sets), s));
        assert(b.accepting_at(s) == a.accepting_at(s));
    }
}

impl<T: Endpoint, AcceptingValue: Clone> Automaton<T, AcceptingValue> {
    /// Determinization by the subset construction. A state that stands for
    /// accepting NFA states accepts with their values, in ascending order of
    /// the NFA states, unified by `unify`.
    pub fn from_nfa<F: Fn(AcceptingValue, AcceptingValue) -> AcceptingValue>(nfa: NFA<T, AcceptingValue>, unify: F) -> (r: Self)
        requires
            nfa.inv(),
            forall|a: AcceptingValue, b: AcceptingValue| call_requires(unify, (a, b)),
        ensures
            r.inv(),
            exists|sets: Seq<Set<nat>>| #[trigger] r.determinizes(nfa, sets) && accepting_folds(r, unify, nfa, sets),
            forall|ps: Seq<int>| #[trigger] r.accepts_word(ps) <==> exists|s: nat| run_set(nfa, ps).contains(s) && (#[trigger] nfa.accepting_at(s)) is Some,
    {
        let nstates = nfa.states();
        let n = nstates.len();
        proof {
            nfa.lemma_start_is_first();
            nfa.lemma_counter_fits();
            assert(nstates@[0].index() == 0);
        }
        let mut dfa = Self::new();
        let mut start_marks = unmarked(n);
        closure_into(&nfa, &nstates[0], &mut start_marks);
        let ghost start_set = marked(start_marks@);
        proof {
            assert forall|t: nat| start_set.contains(t) <==> closure_set(nfa, nfa.start_state().index()).contains(t) by {
                if nfa.eps_reaches(0, t) {
                    nfa.lemma_reaches_bounded(0, t);
                }
            }
            assert(start_set =~= closure_set(nfa, nfa.start_state().index()));
            nfa.lemma_reaches_self(0);
            assert(start_set.contains(0));
            assert(run_set(nfa, Seq::<int>::empty()) == start_set);
        }
        let mut sets: Vec<Vec<bool>> = Vec::new();
        sets.push(start_marks);
        proof {
            assert(set_views(sets@)[0] == start_set);
        }
        let acc = accepting_of(&nfa, &sets[0], &unify);
        match acc {
            Some(v) => {
                dfa.add_accepting_with_value(State(0), v);
            },
            None => {},
        }
        let mut stack: Vec<usize> = Vec::new();
        stack.push(0);
        proof {
            let sv = set_views(sets@);
            assert(sv.len() == 1);
            assert(reachable_set(nfa, sv[0]));
            assert(dfa.accepts_as(nfa, sv, 0));
            assert forall|d: nat| d < sets@.len() implies folds_to(unify, accepting_values(nfa, set_views(sets@)[d as int]), #[trigger] dfa.accepting_at(d)) by {
                assert(d == 0);
            }
            assert forall|d: nat| d < sets@.len() implies #[trigger] dfa.accepts_as(nfa, set_views(sets@), d) by {
                assert(d == 0);
            }
            assert(stack@[0] == 0);
            assert(dfa.transitions_at(0).len() == 0);
            assert(sv.no_duplicates());
            assert(stack@.no_duplicates());
        }
        while stack.len() > 0
            invariant
                dfa.construction(nfa, sets@, stack@),
                accepting_folds(dfa, unify, nfa, set_views(sets@)),
                forall|a: AcceptingValue, b: AcceptingValue| call_requires(unify, (a, b)),
                forall|d: nat| d < sets@.len() && !stack@.contains(d as usize) ==> #[trigger] dfa.follows(nfa, set_views(sets@), d),
            decreases usize::MAX + 1 - sets@.len(), stack@.len(),
        {
            let ghost stack_b = stack@;
            let ghost sets_b = sets@;
            let ghost dfa_b = dfa;
            let d = stack.pop().unwrap();
            let ghost stack_p = stack@;
            proof {
                assert(stack_b == stack_p.push(d));
                assert(stack_b[stack_b.len() - 1] == d);
                assert(!stack_p.contains(d)) by {
                    if stack_p.contains(d) {
                        let w = choose|w: int| 0 <= w < stack_p.len() && stack_p[w] == d;
                        assert(stack_b[w] == d);
                    }
                }
                assert(dfa.transitions_at(d as nat).len() == 0);
                assert forall|k: int| 0 <= k < stack_p.len() implies dfa.transitions_at((#[trigger] stack_p[k]) as nat).len() == 0 by {
                    assert(stack_b[k] == stack_p[k]);
                }
                assert forall|k: int| 0 <= k < stack_p.len() implies (#[trigger] stack_p[k]) < sets@.len() by {
                    assert(stack_b[k] == stack_p[k]);
                }
                assert(stack_p.no_duplicates()) by {
                    assert forall|i: int, j: int| 0 <= i < stack_p.len() && 0 <= j < stack_p.len() && i != j implies stack_p[i] != stack_p[j] by {
                        assert(stack_b[i] == stack_p[i] && stack_b[j] == stack_p[j]);
                    }
                }
            }
            dfa.determinize_state(&nfa, &mut sets, &mut stack, d, &unify);
            proof {
                assert forall|d2: nat| d2 < sets@.len() && !stack@.contains(d2 as usize) implies #[trigger] dfa.follows(nfa, set_views(sets@), d2) by {
                    if d2 != d {
                        assert(d2 < sets_b.len());
                        assert(!stack_p.contains(d2 as usize));
                        assert(!stack_b.contains(d2 as usize)) by {
                            if stack_b.contains(d2 as usize) {
                                let w = choose|w: int| 0 <= w < stack_b.len() && stack_b[w] == d2 as usize;
                                if w < stack_p.len() {
                                    assert(stack_p[w] == d2 as usize);
                                }
                            }
                        }
                        assert(dfa_b.follows(nfa, set_views(sets_b), d2));
                        lemma_follows_grow(dfa_b, dfa, nfa, set_views(sets_b), set_views(sets@), d2);
                    }
                }
            }
        }
        proof {
            let sv = set_views(sets@);
            assert forall|d: nat| d < sv.len() implies #[trigger] dfa.follows(nfa, sv, d) by {
                assert(!stack@.contains(d as usize));
            }
            assert forall|d: int| 0 <= d < sv.len() implies reachable_set(nfa, #[trigger] sv[d]) by {
                assert(reachable_set(nfa, set_views(sets@)[d]));
            }
            assert(dfa.determinizes(nfa, sv));
            assert(accepting_folds(dfa, unify, nfa, sv));
            assert forall|ps: Seq<int>| #[trigger] dfa.accepts_word(ps) <==> exists|s: nat| run_set(nfa, ps).contains(s) && (#[trigger] nfa.accepting_at(s)) is Some by {
                lemma_accepts_as_nfa(&dfa, nfa, sv, ps);
            }
        }
        dfa
    }
}


/// The automaton is deterministic: on a point, a state moves to one state
/// at most.
pub proof fn lemma_deterministic<T: Endpoint, AV>(dfa: &Automaton<T, AV>, s: nat, p: int, t1: nat, t2: nat)
    requires
        dfa.inv(),
        dfa.moves_to(s, p, t1),
        dfa.moves_to(s, p, t2),
    ensures
        t1 == t2,
{
    let m = dfa.transitions_at(s);
    let i = choose|i: int| 0 <= i < m.len() && (#[trigger] m[i]).0.has_point(p) && m[i].1.index() == t1;
    let j = choose|j: int| 0 <= j < m.len() && (#[trigger] m[j]).0.has_point(p) && m[j].1.index() == t2;
    assert(sorted_wf(dfa.transitions@[s as int].intervals@));
    if i < j {
        assert(m[i].0.spec_before(m[j].0));
    } else if j < i {
        assert(m[j].0.spec_before(m[i].0));
    }
}


impl<T: Endpoint, AcceptingValue> Automaton<T, AcceptingValue> {
    /// The state reached from the start by reading the points `ps`, if the
    /// automaton can read them.
    pub open spec fn run_state(&self, ps: Seq<int>) -> Option<nat>
        decreases ps.len(),
    {
        if ps.len() == 0 {
            Some(self.start_state().index())
        } else {
            match self.run_state(ps.drop_last()) {
                Some(d) => if self.moves(d, ps.last()) {
                    Some(choose|t: nat| self.moves_to(d, ps.last(), t))
                } else {
                    None
                },
                None => None,
            }
        }
    }

    /// The automaton reads the points `ps` to an accepting state.
    pub open spec fn accepts_word(&self, ps: Seq<int>) -> bool {
        self.run_state(ps) matches Some(d) && self.accepting_at(d) is Some
    }
}

/// A state that moves on a point moves to some state.
proof fn lemma_moves_somewhere<T: Endpoint, AV>(dfa: &Automaton<T, AV>, d: nat, p: int)
    requires
        dfa.moves(d, p),
    ensures
        exists|t: nat| dfa.moves_to(d, p, t),
{
    let m = dfa.transitions_at(d);
    let i = choose|i: int| 0 <= i < m.len() && (#[trigger] m[i]).0.has_point(p);
    assert(dfa.moves_to(d, p, m[i].1.index()));
}

/// The subset construction reads as the NFA does: on every input the state
/// reached stands for the set of NFA states reached, and where the
/// automaton cannot read on, the NFA reaches no state.
pub proof fn lemma_runs_as_nfa<T: Endpoint, AV>(dfa: &Automaton<T, AV>, nfa: NFA<T, AV>, sets: Seq<Set<nat>>, ps: Seq<int>)
    requires
        dfa.inv(),
        dfa.determinizes(nfa, sets),
    ensures
        match dfa.run_state(ps) {
            Some(d) => d < sets.len() && sets[d as int] == run_set(nfa, ps),
            None => run_set(nfa, ps).is_empty(),
        },
    decreases ps.len(),
{
    if ps.len() == 0 {
        assert(dfa.start_state().index() == 0);
    } else {
        let prev = ps.drop_last();
        let p = ps.last();
        lemma_runs_as_nfa(dfa, nfa, sets, prev);
        match dfa.run_state(prev) {
            Some(d) => {
                assert(dfa.follows(nfa, sets, d));
                if dfa.moves(d, p) {
                    lemma_moves_somewhere(dfa, d, p);
                    let t = choose|t: nat| dfa.moves_to(d, p, t);
                    assert(dfa.run_state(ps) == Some(t));
                } else {
                    assert(step_set(nfa, sets[d as int], p).is_empty());
                }
            },
            None => {
                assert(run_set(nfa, ps) =~= Set::<nat>::empty());
            },
        }
    }
}

/// The subset construction accepts a word exactly when the NFA reaches an
/// accepting state on it.
pub proof fn lemma_accepts_as_nfa<T: Endpoint, AV>(dfa: &Automaton<T, AV>, nfa: NFA<T, AV>, sets: Seq<Set<nat>>, ps: Seq<int>)
    requires
        dfa.inv(),
        dfa.determinizes(nfa, sets),
    ensures
        dfa.accepts_word(ps) <==> exists|s: nat| run_set(nfa, ps).contains(s) && (#[trigger] nfa.accepting_at(s)) is Some,
{
    lemma_runs_as_nfa(dfa, nfa, sets, ps);
    match dfa.run_state(ps) {
        Some(d) => {
            assert(dfa.accepts_as(nfa, sets, d));
        },
        None => {
        },
    }
}

/// An epsilon path reads the empty word from its first state to its last.
proof fn lemma_eps_path_reads<T: Endpoint, AV>(nfa: NFA<T, AV>, path: Seq<nat>)
    requires
        nfa.is_eps_path(path),
    ensures
        nfa.reads(path[0], Seq::<int>::empty(), path.last()),
    decreases path.len(),
{
    if path.len() == 1 {
        lemma_reads_here(&nfa, path[0]);
    } else {
        let tail = path.drop_first();
        assert forall|i: int| 0 <= i < tail.len() - 1 implies nfa.eps_step(#[trigger] tail[i], tail[i + 1]) by {
            assert(nfa.eps_step(path[i + 1], path[i + 2]));
        }
        assert(nfa.is_eps_path(tail));
        lemma_eps_path_reads(nfa, tail);
        assert(nfa.eps_step(path[0], path[1]));
        lemma_reads_eps(&nfa, path[0], path[1]);
        lemma_reads_concat(&nfa, path[0], Seq::<int>::empty(), path[1], Seq::<int>::empty(), path.last());
        assert(Seq::<int>::empty() + Seq::<int>::empty() =~= Seq::<int>::empty());
    }
}

/// One more epsilon transition after an epsilon path is an epsilon path.
proof fn lemma_eps_reaches_step<T: Endpoint, AV>(nfa: NFA<T, AV>, a: nat, x: nat, z: nat)
    requires
        nfa.eps_reaches(a, x),
        nfa.eps_step(x, z),
    ensures
        nfa.eps_reaches(a, z),
{
    let path = choose|path: Seq<nat>| #[trigger] nfa.is_eps_path(path) && path[0] == a && path.last() == x;
    let longer = path.push(z);
    assert forall|i: int| 0 <= i < longer.len() - 1 implies nfa.eps_step(#[trigger] longer[i], longer[i + 1]) by {
        if i < path.len() - 1 {
            assert(nfa.eps_step(path[i], path[i + 1]));
        }
    }
    assert(nfa.is_eps_path(longer));
}

/// Every state reaches itself by no epsilon transition.
proof fn lemma_eps_reaches_here<T: Endpoint, AV>(nfa: NFA<T, AV>, a: nat)
    ensures
        nfa.eps_reaches(a, a),
{
    assert(nfa.is_eps_path(seq![a]));
}

/// The states reached on an input are closed under epsilon transitions.
proof fn lemma_run_set_eps_closed<T: Endpoint, AV>(nfa: NFA<T, AV>, u: Seq<int>, x: nat, z: nat)
    requires
        run_set(nfa, u).contains(x),
        nfa.eps_step(x, z),
    ensures
        run_set(nfa, u).contains(z),
{
    if u.len() == 0 {
        lemma_eps_reaches_step(nfa, nfa.start_state().index(), x, z);
    } else {
        let p = u.last();
        let s = choose|s: nat| run_set(nfa, u.drop_last()).contains(s) && #[trigger] leads_to(nfa, s, p, x);
        let w = choose|w: NfaState| nfa.steps_to(s, p, w) && nfa.eps_reaches(w.index(), x);
        lemma_eps_reaches_step(nfa, w.index(), x, z);
        assert(leads_to(nfa, s, p, z));
    }
}

/// A transition on `p` from a state reached on `u` reaches a state reached
/// on `u` and then `p`.
proof fn lemma_run_set_step<T: Endpoint, AV>(nfa: NFA<T, AV>, u: Seq<int>, x: nat, p: int, t: NfaState)
    requires
        run_set(nfa, u).contains(x),
        nfa.steps_to(x, p, t),
    ensures
        run_set(nfa, u.push(p)).contains(t.index()),
{
    lemma_eps_reaches_here(nfa, t.index());
    assert(leads_to(nfa, x, p, t.index()));
    assert(u.push(p).drop_last() =~= u);
}

/// A run from a state reached on `u` reading `v` ends in a state reached on
/// `u + v`.
proof fn lemma_run_into_run_set<T: Endpoint, AV>(nfa: NFA<T, AV>, u: Seq<int>, x: nat, v: Seq<int>, y: nat, n: nat)
    requires
        run_set(nfa, u).contains(x),
        nfa.run(x, v, y, n),
    ensures
        run_set(nfa, u + v).contains(y),
    decreases n,
{
    if n == 0 {
        assert(u + v =~= u);
    } else if exists|z: nat| nfa.eps_step(x, z) && nfa.run(z, v, y, (n - 1) as nat) {
        let z = choose|z: nat| nfa.eps_step(x, z) && nfa.run(z, v, y, (n - 1) as nat);
        lemma_run_set_eps_closed(nfa, u, x, z);
        lemma_run_into_run_set(nfa, u, z, v, y, (n - 1) as nat);
    } else {
        let t = choose|t: NfaState| nfa.steps_to(x, v[0], t) && nfa.run(t.index(), v.drop_first(), y, (n - 1) as nat);
        lemma_run_set_step(nfa, u, x, v[0], t);
        lemma_run_into_run_set(nfa, u.push(v[0]), t.index(), v.drop_first(), y, (n - 1) as nat);
        assert(u.push(v[0]) + v.drop_first() =~= u + v);
    }
}

/// The states reached on an input are exactly those some run from the start
/// reaches reading it.
pub proof fn lemma_run_set_reads<T: Endpoint, AV>(nfa: NFA<T, AV>, ps: Seq<int>, t: nat)
    ensures
        run_set(nfa, ps).contains(t) <==> nfa.reads(nfa.start_state().index(), ps, t),
    decreases ps.len(),
{
    let start = nfa.start_state().index();
    if nfa.reads(start, ps, t) {
        let n = choose|n: nat| nfa.run(start, ps, t, n);
        lemma_eps_reaches_here(nfa, start);
        assert(run_set(nfa, Seq::<int>::empty()).contains(start));
        lemma_run_into_run_set(nfa, Seq::<int>::empty(), start, ps, t, n);
        assert(Seq::<int>::empty() + ps =~= ps);
    }
    if run_set(nfa, ps).contains(t) {
        if ps.len() == 0 {
            assert(closure_set(nfa, start).contains(t));
            assert(nfa.eps_reaches(start, t));
            let path = choose|path: Seq<nat>| #[trigger] nfa.is_eps_path(path) && path[0] == start && path.last() == t;
            lemma_eps_path_reads(nfa, path);
            assert(ps =~= Seq::<int>::empty());
            assert(nfa.reads(start, ps, t));
        } else {
            let prev = ps.drop_last();
            let p = ps.last();
            assert(step_set(nfa, run_set(nfa, prev), p).contains(t));
            let s = choose|s: nat| run_set(nfa, prev).contains(s) && #[trigger] leads_to(nfa, s, p, t);
            let w = choose|w: NfaState| nfa.steps_to(s, p, w) && nfa.eps_reaches(w.index(), t);
            lemma_run_set_reads(nfa, prev, s);
            lemma_reads_point(&nfa, s, p, w);
            let path = choose|path: Seq<nat>| #[trigger] nfa.is_eps_path(path) && path[0] == w.index() && path.last() == t;
            lemma_eps_path_reads(nfa, path);
            lemma_reads_concat(&nfa, s, seq![p], w.index(), Seq::<int>::empty(), t);
            assert(seq![p] + Seq::<int>::empty() =~= seq![p]);
            lemma_reads_concat(&nfa, start, prev, s, seq![p], t);
            assert(prev + seq![p] =~= ps);
            assert(nfa.reads(start, ps, t));
        }
    }
}

/// The subset construction of the automaton of a regular expression (one
/// whose start reads exactly the words of the expression to its only
/// accepting state) accepts exactly the words the expression matches.
pub proof fn lemma_accepts_what_regex_matches<T: Endpoint, AV>(
    rx: &Node,
    nfa: NFA<T, AV>,
    to: nat,
    dfa: &Automaton<T, AV>,
    w: Seq<int>,
)
    requires
        nfa.accepting_at(to) is Some,
        forall|s: nat| s != to ==> (#[trigger] nfa.accepting_at(s)) is None,
        forall|u: Seq<int>| #[trigger] nfa.reads(nfa.start_state().index(), u, to) <==> matches_word(rx, u),
        forall|ps: Seq<int>| #[trigger] dfa.accepts_word(ps) <==> exists|s: nat| run_set(nfa, ps).contains(s) && (#[trigger] nfa.accepting_at(s)) is Some,
    ensures
        dfa.accepts_word(w) <==> matches_word(rx, w),
{
    lemma_run_set_reads(nfa, w, to);
    if dfa.accepts_word(w) {
        let s = choose|s: nat| run_set(nfa, w).contains(s) && (#[trigger] nfa.accepting_at(s)) is Some;
        assert(s == to);
    }
    if matches_word(rx, w) {
        assert(run_set(nfa, w).contains(to));
    }
}

} // verus!

verus! {

impl<T: Endpoint, AcceptingValue> Automaton<T, AcceptingValue> {
    /// The same automaton, with the value of each accepting state mapped
    /// by `f`.
    pub fn map_values<B, F: Fn(AcceptingValue) -> B>(self, f: F) -> (r: Automaton<T, B>)
        requires
            self.inv(),
            forall|v: AcceptingValue| call_requires(f, (v,)),
        ensures
            r.inv(),
            r.counter() == self.counter(),
            r.start_state() == self.start_state(),
            forall|s: nat| #[trigger] r.transitions_at(s) == self.transitions_at(s),
            forall|s: nat| #[trigger] r.accepting_at(s) is Some == self.accepting_at(s) is Some,
            forall|s: nat| #[trigger] r.accepting_at(s) is Some ==> call_ensures(f, (self.accepting_at(s).unwrap(),), r.accepting_at(s).unwrap()),
    {
        let ghost orig = self.accepting@;
        let Automaton { state_counter, start, accepting, transitions } = self;
        let mut rest = accepting;
        let mut out: Vec<Option<B>> = Vec::new();
        let n = rest.len();
        while rest.len() > 0
            invariant
                out@.len() + rest@.len() == n,
                n == orig.len(),
                rest@ == orig.skip(out@.len() as int),
                forall|v: AcceptingValue| call_requires(f, (v,)),
                forall|j: int| 0 <= j < out@.len() ==> (#[trigger] out@[j]) is Some == orig[j] is Some,
                forall|j: int| 0 <= j < out@.len() ==> (#[trigger] out@[j]) is Some ==> call_ensures(f, (orig[j].unwrap(),), out@[j].unwrap()),
            decreases rest@.len(),
        {
            let ghost k = out@.len() as int;
            let x = rest.remove(0);
            proof {
                assert(x == orig[k]);
                assert(rest@ =~= orig.skip(k + 1));
            }
            match x {
                Some(v) => {
                    let b = f(v);
                    out.push(Some(b));
                },
                None => {
                    out.push(None);
                },
            }
        }
        let r = Automaton { state_counter, start, accepting: out, transitions };
        proof {
            assert forall|s: nat| #[trigger] r.accepting_at(s) is Some == self.accepting_at(s) is Some by {
                if s < n {
                    assert(r.accepting@[s as int] is Some == orig[s as int] is Some);
                }
            }
            assert forall|s: nat| #[trigger] r.accepting_at(s) is Some implies call_ensures(f, (self.accepting_at(s).unwrap(),), r.accepting_at(s).unwrap()) by {
                assert(s < n);
            }
        }
        r
    }
}

} // verus!
