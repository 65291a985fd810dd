//! Generic dense nondeterministic finite automaton representation.
//!
//! States are numbered densely from `0` (the start state) up to the number of
//! states handed out; every table is indexed by that number.
//!
//! Thompson's construction builds, for a regular expression, a fragment
//! whose first state reads to its last exactly the words the expression
//! matches (see `crate::regex_lang`).

use vstd::prelude::*;
use crate::endpoint::Endpoint;
use crate::interval::Interval;
use crate::bound::{LowerBound, UpperBound};
use crate::interval_set::{IntervalSet, covers, set_wf, apart};
use crate::regex_ast::{Node, Quantifier, GroupingElement};
use crate::regex_lang::{element_has_point, grouping_has_point, matches_word, matches_repeated, quantifier_allows, lemma_rep_split};
use crate::interval_map::{IntervalMap, Unification, map_wf, map_covers, maps_to, meets_at_most_one, inserted_value, unified_by, copy_of, lemma_meeting_share_point};

verus! {

#[derive(Debug, Clone, Copy, PartialEq, Eq, PartialOrd, Ord, Hash)]
pub struct State(usize);

impl State {
    /// The number of the state.
    pub closed spec fn index(self) -> nat {
        self.0 as nat
    }

    /// States with the same number are the same state.
    pub proof fn lemma_index_injective(a: State, b: State)
        ensures
            a.index() == b.index() <==> a == b,
    {
    }

    /// Every number that fits a `usize` numbers a state.
    pub proof fn lemma_state_exists(t: nat)
        requires
            t <= usize::MAX,
        ensures
            exists|s: State| s.index() == t,
    {
        assert(State(t as usize).index() == t);
    }

    /// The number of the state.
    pub fn id(&self) -> (r: usize)
        ensures
            r == self.index(),
    {
        self.0
    }
}

pub struct Automaton<T, AcceptingValue> {
    state_counter: usize,
    pub start: State,
    accepting: Vec<Option<AcceptingValue>>,
    transitions: Vec<IntervalMap<T, Vec<State>>>,
    epsilon: Vec<Vec<State>>,
}

/// The number of unmarked entries.
pub open spec fn count_unmarked(v: Seq<bool>) -> nat
    decreases v.len(),
{
    if v.len() == 0 {
        0
    } else {
        count_unmarked(v.drop_last()) + if v.last() { 0nat } else { 1nat }
    }
}

/// Marking an unmarked entry lowers the count by one.
proof fn lemma_mark_one(v: Seq<bool>, i: int)
    requires
        0 <= i < v.len(),
        !v[i],
    ensures
        count_unmarked(v.update(i, true)) + 1 == count_unmarked(v),
    decreases v.len(),
{
    if i < v.len() - 1 {
        lemma_mark_one(v.drop_last(), i);
        assert(v.update(i, true).drop_last() =~= v.drop_last().update(i, true));
    } else {
        assert(v.update(i, true).drop_last() =~= v.drop_last());
    }
}

impl<T: Endpoint, AcceptingValue> Automaton<T, AcceptingValue> {
    /// The start state.
    pub closed spec fn start_state(&self) -> State {
        self.start
    }

    /// The highest state number handed out.
    pub closed spec fn counter(&self) -> nat {
        self.state_counter as nat
    }

    /// The start state is the state numbered `0`.
    pub proof fn lemma_start_is_first(&self)
        requires
            self.inv(),
        ensures
            self.start_state().index() == 0,
    {
    }

    /// The number of states fits a `usize`.
    pub proof fn lemma_counter_fits(&self)
        ensures
            self.counter() <= usize::MAX,
    {
    }

    /// The value a state accepts with, if it is accepting.
    pub closed spec fn accepting_at(&self, s: nat) -> Option<AcceptingValue> {
        if s < self.accepting@.len() {
            self.accepting@[s as int]
        } else {
            None
        }
    }

    /// The states reached from `s` by one epsilon transition, in the order
    /// they were added.
    pub closed spec fn epsilon_from(&self, s: nat) -> Seq<State> {
        if s < self.epsilon@.len() {
            self.epsilon@[s as int]@
        } else {
            Seq::empty()
        }
    }

    /// The transitions leaving `s`: intervals of input to sets of states.
    pub closed spec fn transitions_at(&self, s: nat) -> Seq<(Interval<T>, Vec<State>)> {
        if s < self.transitions@.len() {
            self.transitions@[s as int].intervals@
        } else {
            Seq::empty()
        }
    }

    /// One epsilon transition leads from `a` to `b`.
    pub open spec fn eps_step(&self, a: nat, b: nat) -> bool {
        exists|k: int| 0 <= k < self.epsilon_from(a).len() && (#[trigger] self.epsilon_from(a)[k]).index() == b
    }

    /// `path` follows epsilon transitions from its first to its last state.
    pub open spec fn is_eps_path(&self, path: Seq<nat>) -> bool {
        &&& path.len() >= 1
        &&& forall|i: int| 0 <= i < path.len() - 1 ==> self.eps_step(#[trigger] path[i], path[i + 1])
    }

    /// `b` is reached from `a` by zero or more epsilon transitions.
    pub open spec fn eps_reaches(&self, a: nat, b: nat) -> bool {
        exists|path: Seq<nat>| #[trigger] self.is_eps_path(path) && path[0] == a && path.last() == b
    }

    /// On the point `p`, a transition leads from `s` to `t`.
    pub open spec fn steps_to(&self, s: nat, p: int, t: State) -> bool {
        exists|i: int|
            0 <= i < self.transitions_at(s).len() && (#[trigger] self.transitions_at(s)[i]).0.has_point(p)
                && self.transitions_at(s)[i].1@.contains(t)
    }

    /// A run of `n` transitions from the state `x` to the state `y` that
    /// reads the points `w`: an epsilon transition reads nothing, any other
    /// transition the next point.
    pub open spec fn run(&self, x: nat, w: Seq<int>, y: nat, n: nat) -> bool
        decreases n,
    {
        if n == 0 {
            x == y && w.len() == 0
        } else {
            (exists|z: nat| self.eps_step(x, z) && self.run(z, w, y, (n - 1) as nat))
                || (w.len() > 0 && exists|t: State| self.steps_to(x, w[0], t) && self.run(t.index(), w.drop_first(), y, (n - 1) as nat))
        }
    }

    /// Some run from `x` to `y` reads `w`.
    pub open spec fn reads(&self, x: nat, w: Seq<int>, y: nat) -> bool {
        exists|n: nat| #[trigger] self.run(x, w, y, n)
    }

    /// Every transition of `self` is one of `other`.
    pub open spec fn below(&self, other: &Self) -> bool {
        &&& forall|x: nat, z: nat| #[trigger] self.eps_step(x, z) ==> other.eps_step(x, z)
        &&& forall|x: nat, p: int, t: State| #[trigger] self.steps_to(x, p, t) ==> other.steps_to(x, p, t)
    }

    /// The tables cover every state handed out, epsilon transitions stay
    /// among them, and every transition table is well formed.
    pub closed spec fn inv(&self) -> bool {
        &&& self.start == State(0)
        &&& self.accepting@.len() == self.state_counter + 1
        &&& self.transitions@.len() == self.state_counter + 1
        &&& self.epsilon@.len() == self.state_counter + 1
        &&& forall|i: int, k: int|
            0 <= i < self.epsilon@.len() && 0 <= k < self.epsilon@[i]@.len() ==> (
            #[trigger] self.epsilon@[i]@[k]).index() <= self.state_counter
        &&& forall|i: int| 0 <= i < self.transitions@.len() ==> map_wf((#[trigger] self.transitions@[i]).intervals@)
        &&& forall|i: int, j: int, k: int|
            0 <= i < self.transitions@.len() && 0 <= j < self.transitions@[i].intervals@.len() && 0 <= k < self.transitions@[i].intervals@[j].1@.len()
            ==> (#[trigger] self.transitions@[i].intervals@[j].1@[k]).index() <= self.state_counter
        &&& forall|i: int, j: int|
            0 <= i < self.transitions@.len() && 0 <= j < self.transitions@[i].intervals@.len()
            ==> (#[trigger] self.transitions@[i].intervals@[j]).1@.len() > 0
    }

    pub fn new() -> (r: Self)
        ensures
            r.inv(),
            r.counter() == 0,
            r.start_state().index() == 0,
            forall|s: nat| r.accepting_at(s) is None,
            forall|s: nat| r.epsilon_from(s) == Seq::<State>::empty(),
            forall|s: nat| r.transitions_at(s) == Seq::<(Interval<T>, Vec<State>)>::empty(),
    {
        let mut accepting = Vec::new();
        accepting.push(None);
        let mut transitions = Vec::new();
        transitions.push(IntervalMap::new());
        let mut epsilon = Vec::new();
        epsilon.push(Vec::new());
        Self { state_counter: 0, start: State(0), accepting, transitions, epsilon }
    }

    /// Hands out a new state, numbered one above the highest so far.
    pub fn unique_state(&mut self) -> (r: State)
        requires
            old(self).inv(),
            old(self).counter() < usize::MAX,
        ensures
            r != final(self).start_state(),
            final(self).inv(),
            final(self).counter() == old(self).counter() + 1,
            r.index() == final(self).counter(),
            final(self).start_state() == old(self).start_state(),
            forall|s: nat| final(self).accepting_at(s) == old(self).accepting_at(s),
            forall|s: nat| final(self).epsilon_from(s) == old(self).epsilon_from(s),
            forall|s: nat| final(self).transitions_at(s) == old(self).transitions_at(s),
    {
        self.state_counter += 1;
        self.accepting.push(None);
        self.transitions.push(IntervalMap::new());
        self.epsilon.push(Vec::new());
        proof {
            assert forall|i: int| 0 <= i < self.transitions@.len() implies map_wf((#[trigger] self.transitions@[i]).intervals@) by {
                if i < self.transitions@.len() - 1 {
                    assert(self.transitions@[i] == old(self).transitions@[i]);
                }
            }
            assert forall|i: int, j: int, k: int|
                0 <= i < self.transitions@.len() && 0 <= j < self.transitions@[i].intervals@.len() && 0 <= k < self.transitions@[i].intervals@[j].1@.len()
                implies (#[trigger] self.transitions@[i].intervals@[j].1@[k]).index() <= self.state_counter by {
                if i < self.transitions@.len() - 1 {
                    assert(self.transitions@[i] == old(self).transitions@[i]);
                }
            }
            assert forall|i: int, k: int|
                0 <= i < self.epsilon@.len() && 0 <= k < self.epsilon@[i]@.len() implies (
                #[trigger] self.epsilon@[i]@[k]).index() <= self.state_counter by {
                if i < self.epsilon@.len() - 1 {
                    assert(self.epsilon@[i] == old(self).epsilon@[i]);
                }
            }
        }
        State(self.state_counter)
    }

    pub fn add_accepting_with_value(&mut self, state: State, value: AcceptingValue)
        requires
            old(self).inv(),
            state.index() <= old(self).counter(),
        ensures
            final(self).inv(),
            final(self).counter() == old(self).counter(),
            final(self).start_state() == old(self).start_state(),
            forall|s: nat| final(self).accepting_at(s) == (if s == state.index() { Some(value) } else { old(self).accepting_at(s) }),
            forall|s: nat| final(self).epsilon_from(s) == old(self).epsilon_from(s),
            forall|s: nat| final(self).transitions_at(s) == old(self).transitions_at(s),
    {
        self.accepting.set(state.0, Some(value));
    }

    pub fn accepting_value(&self, state: &State) -> (r: Option<&AcceptingValue>)
        requires
            self.inv(),
        ensures
            r == match self.accepting_at(state.index()) {
                Some(v) => Some(&v),
                None => None::<&AcceptingValue>,
            },
    {
        if state.0 < self.accepting.len() {
            match &self.accepting[state.0] {
                Some(v) => Some(v),
                None => None,
            }
        } else {
            None
        }
    }

    pub fn is_accepting(&self, state: &State) -> (r: bool)
        requires
            self.inv(),
        ensures
            r == (self.accepting_at(state.index()) is Some),
    {
        self.accepting_value(state).is_some()
    }

    /// A set of states closed under epsilon transitions that holds `start`
    /// holds every state reached from `start`.
    proof fn lemma_closed_holds_reached(&self, marked: Seq<bool>, start: nat, path: Seq<nat>)
        requires
            self.inv(),
            marked.len() == self.counter() + 1,
            start <= self.counter(),
            marked[start as int],
            forall|x: int, k: int| 0 <= x < marked.len() && marked[x] && 0 <= k < self.epsilon_from(x as nat).len()
                ==> marked[(#[trigger] self.epsilon_from(x as nat)[k]).index() as int],
            self.is_eps_path(path),
            path[0] == start,
        ensures
            path.last() <= self.counter(),
            marked[path.last() as int],
        decreases path.len(),
    {
        if path.len() > 1 {
            let prefix = path.drop_last();
            assert(self.is_eps_path(prefix)) by {
                assert forall|i: int| 0 <= i < prefix.len() - 1 implies self.eps_step(#[trigger] prefix[i], prefix[i + 1]) by {
                    assert(self.eps_step(path[i], path[i + 1]));
                }
            }
            self.lemma_closed_holds_reached(marked, start, prefix);
            let a = prefix.last();
            assert(self.eps_step(path[path.len() - 2], path[path.len() - 1]));
            let k = choose|k: int| 0 <= k < self.epsilon_from(a).len() && (#[trigger] self.epsilon_from(a)[k]).index() == path.last();
            let x: int = a as int;
            assert(x as nat == a);
            assert(marked[(self.epsilon_from(x as nat)[k]).index() as int]);
            assert(self.epsilon_from(a)[k] == self.epsilon@[a as int]@[k]);
        }
    }

    /// Epsilon transitions from a state handed out stay among the states
    /// handed out.
    pub proof fn lemma_reach_bounded(&self, a: nat, path: Seq<nat>)
        requires
            self.inv(),
            a <= self.counter(),
            self.is_eps_path(path),
            path[0] == a,
        ensures
            path.last() <= self.counter(),
        decreases path.len(),
    {
        if path.len() > 1 {
            let prefix = path.drop_last();
            assert(self.is_eps_path(prefix)) by {
                assert forall|i: int| 0 <= i < prefix.len() - 1 implies self.eps_step(#[trigger] prefix[i], prefix[i + 1]) by {
                    assert(self.eps_step(path[i], path[i + 1]));
                }
            }
            self.lemma_reach_bounded(a, prefix);
            let x = prefix.last();
            assert(self.eps_step(path[path.len() - 2], path[path.len() - 1]));
            let k = choose|k: int| 0 <= k < self.epsilon_from(x).len() && (#[trigger] self.epsilon_from(x)[k]).index() == path.last();
            assert(self.epsilon@[x as int]@[k].index() <= self.state_counter);
        }
    }

    /// What epsilon transitions reach from a state handed out was handed out.
    pub proof fn lemma_reaches_bounded(&self, a: nat, b: nat)
        requires
            self.inv(),
            a <= self.counter(),
            self.eps_reaches(a, b),
        ensures
            b <= self.counter(),
    {
        let path = choose|path: Seq<nat>| #[trigger] self.is_eps_path(path) && path[0] == a && path.last() == b;
        self.lemma_reach_bounded(a, path);
    }

    /// A transition leads to a state handed out.
    pub proof fn lemma_step_bounded(&self, s: nat, p: int, t: State)
        requires
            self.inv(),
            self.steps_to(s, p, t),
        ensures
            t.index() <= self.counter(),
    {
        let i = choose|i: int|
            0 <= i < self.transitions_at(s).len() && (#[trigger] self.transitions_at(s)[i]).0.has_point(p)
                && self.transitions_at(s)[i].1@.contains(t);
        let k = choose|k: int| 0 <= k < self.transitions_at(s)[i].1@.len() && self.transitions_at(s)[i].1@[k] == t;
        assert(self.transitions@[s as int].intervals@[i].1@[k] == t);
    }

    /// Every state reaches itself.
    pub proof fn lemma_reaches_self(&self, a: nat)
        ensures
            self.eps_reaches(a, a),
    {
        assert(self.is_eps_path(seq![a]));
    }

    /// Every state reached from `state` by epsilon transitions, in
    /// ascending order.
    pub fn epsilon_closure(&self, state: &State) -> (r: Vec<State>)
        requires
            self.inv(),
        ensures
            forall|x: State| r@.contains(x) <==> self.eps_reaches(state.index(), x.index()),
            forall|i: int, j: int| 0 <= i < j < r@.len() ==> (#[trigger] r@[i]).index() < (#[trigger] r@[j]).index(),
            state.index() <= self.counter() ==> forall|i: int| 0 <= i < r@.len() ==> (#[trigger] r@[i]).index() <= self.counter(),
    {
        let n = self.epsilon.len();
        if state.0 >= n {
            // No transition leaves a state this automaton did not hand out
            let mut r = Vec::new();
            r.push(*state);
            proof {
                let p = seq![state.index()];
                assert(self.is_eps_path(p));
                assert forall|x: State| r@.contains(x) <==> self.eps_reaches(state.index(), x.index()) by {
                    if self.eps_reaches(state.index(), x.index()) {
                        let path = choose|path: Seq<nat>| #[trigger] self.is_eps_path(path) && path[0] == state.index() && path.last() == x.index();
                        if path.len() > 1 {
                            assert(self.eps_step(path[0], path[1]));
                        }
                        State::lemma_index_injective(x, *state);
                        assert(r@[0] == x);
                    }
                    if r@.contains(x) {
                        assert(r@[0] == x);
                    }
                }
            }
            return r;
        }
        let mut marked: Vec<bool> = Vec::new();
        let mut i: usize = 0;
        while i < n
            invariant
                i <= n,
                marked@.len() == i,
                forall|j: int| 0 <= j < i ==> !marked@[j],
            decreases n - i,
        {
            marked.push(false);
            i = i + 1;
        }
        proof {
            lemma_mark_one(marked@, state.index() as int);
        }
        marked.set(state.0, true);
        let mut stack: Vec<usize> = Vec::new();
        stack.push(state.0);
        proof {
            assert(self.is_eps_path(seq![state.index()]));
            assert(stack@[0] == state.0);
            assert forall|x: int| 0 <= x < n && #[trigger] marked@[x] implies x == state.index() by {
                if x != state.index() {
                    assert(!marked@[x]);
                }
            }
        }
        while stack.len() > 0
            invariant
                self.inv(),
                n == self.counter() + 1,
                state.index() < n,
                marked@.len() == n,
                marked@[state.index() as int],
                forall|k: int| 0 <= k < stack@.len() ==> (#[trigger] stack@[k]) < n && marked@[stack@[k] as int],
                forall|x: int| 0 <= x < n && #[trigger] marked@[x] ==> self.eps_reaches(state.index(), x as nat),
                forall|x: int, k: int| 0 <= x < n && marked@[x] && !stack@.contains(x as usize) && 0 <= k < self.epsilon_from(x as nat).len()
                    ==> marked@[(#[trigger] self.epsilon_from(x as nat)[k]).index() as int],
            decreases 2 * count_unmarked(marked@) + stack@.len(),
        {
            let ghost stack_before = stack@;
            let top = stack.pop().unwrap();
            let ghost stack_rest = stack@;
            let ghost marked_before = marked@;
            proof {
                assert(stack_before == stack_rest.push(top));
                assert(stack_before[stack_before.len() - 1] == top);
            }
            let targets = &self.epsilon[top];
            let mut k: usize = 0;
            while k < targets.len()
                invariant
                    self.inv(),
                    n == self.counter() + 1,
                    top < n,
                    targets == self.epsilon@[top as int],
                    k <= targets@.len(),
                    state.index() < n,
                    marked@.len() == n,
                    marked_before.len() == n,
                    marked@[state.index() as int],
                    marked@[top as int],
                    self.eps_reaches(state.index(), top as nat),
                    forall|x: int| 0 <= x < n && #[trigger] marked_before[x] ==> marked@[x],
                    forall|j: int| 0 <= j < k ==> marked@[(#[trigger] targets@[j]).index() as int],
                    forall|j: int| 0 <= j < stack@.len() ==> (#[trigger] stack@[j]) < n && marked@[stack@[j] as int],
                    forall|j: int| 0 <= j < stack_rest.len() ==> stack@[j] == #[trigger] stack_rest[j],
                    stack@.len() >= stack_rest.len(),
                    forall|x: int| 0 <= x < n && !marked_before[x] && #[trigger] marked@[x] ==> stack@.contains(x as usize),
                    forall|x: int| 0 <= x < n && #[trigger] marked@[x] ==> self.eps_reaches(state.index(), x as nat),
                    2 * count_unmarked(marked@) + stack@.len() <= 2 * count_unmarked(marked_before) + stack_rest.len(),
                decreases targets@.len() - k,
            {
                let next = targets[k].0;
                proof {
                    assert(targets@[k as int].index() <= self.counter());
                }
                if !marked[next] {
                    proof {
                        lemma_mark_one(marked@, next as int);
                        let path = choose|path: Seq<nat>| #[trigger] self.is_eps_path(path) && path[0] == state.index() && path.last() == top as nat;
                        let longer = path.push(next as nat);
                        assert(self.epsilon_from(top as nat) == targets@);
                        assert(self.eps_step(top as nat, next as nat)) by {
                            assert(self.epsilon_from(top as nat)[k as int].index() == next);
                        }
                        assert(self.is_eps_path(longer)) by {
                            assert forall|i: int| 0 <= i < longer.len() - 1 implies self.eps_step(#[trigger] longer[i], longer[i + 1]) by {
                                if i < path.len() - 1 {
                                    assert(self.eps_step(path[i], path[i + 1]));
                                }
                            }
                        }
                        assert(longer[0] == state.index() && longer.last() == next as nat);
                    }
                    let ghost stack_old = stack@;
                    let ghost marked_old = marked@;
                    marked.set(next, true);
                    stack.push(next);
                    proof {
                        assert(stack@[stack@.len() - 1] == next);
                        assert forall|x: int| 0 <= x < n && !marked_before[x] && #[trigger] marked@[x] implies stack@.contains(x as usize) by {
                            if x != next {
                                assert(marked_old[x]);
                                assert(stack_old.contains(x as usize));
                                let w = choose|w: int| 0 <= w < stack_old.len() && stack_old[w] == x as usize;
                                assert(stack@[w] == stack_old[w]);
                            }
                        }
                    }
                }
                k = k + 1;
            }
            proof {
                assert forall|x: int, j: int| 0 <= x < n && marked@[x] && !stack@.contains(x as usize) && 0 <= j < self.epsilon_from(x as nat).len()
                    implies marked@[(#[trigger] self.epsilon_from(x as nat)[j]).index() as int] by {
                    if x == top {
                        assert(self.epsilon_from(x as nat) == targets@);
                        assert(targets@[j] == self.epsilon_from(x as nat)[j]);
                    } else if marked_before[x] {
                        if stack_rest.contains(x as usize) {
                            let w = choose|w: int| 0 <= w < stack_rest.len() && stack_rest[w] == x as usize;
                            assert(stack@[w] == stack_rest[w]);
                        }
                        if stack_before.contains(x as usize) {
                            let w = choose|w: int| 0 <= w < stack_before.len() && stack_before[w] == x as usize;
                            if w < stack_rest.len() {
                                assert(stack_rest[w] == stack_before[w]);
                            }
                        }
                        assert(!stack_before.contains(x as usize));
                        let y = self.epsilon_from(x as nat)[j].index();
                        assert(marked_before[y as int]);
                    }
                }
            }
        }
        proof {
            assert forall|x: int, j: int| 0 <= x < marked@.len() && marked@[x] && 0 <= j < self.epsilon_from(x as nat).len()
                implies marked@[(#[trigger] self.epsilon_from(x as nat)[j]).index() as int] by {
                assert(!stack@.contains(x as usize));
            }
        }
        let mut r: Vec<State> = Vec::new();
        let mut x: usize = 0;
        while x < n
            invariant
                self.inv(),
                n == self.counter() + 1,
                x <= n,
                marked@.len() == n,
                forall|k: int| 0 <= k < r@.len() ==> (#[trigger] r@[k]).index() < x && marked@[r@[k].index() as int],
                forall|y: int| 0 <= y < x && marked@[y] ==> r@.contains(State(y as usize)),
                forall|a: int, b: int| 0 <= a < b < r@.len() ==> (#[trigger] r@[a]).index() < (#[trigger] r@[b]).index(),
            decreases n - x,
        {
            if marked[x] {
                let ghost r_old = r@;
                r.push(State(x));
                proof {
                    assert(r@.last() == State(x));
                    assert forall|y: int| 0 <= y < x + 1 && marked@[y] implies r@.contains(State(y as usize)) by {
                        if y < x {
                            assert(r_old.contains(State(y as usize)));
                            let w = choose|w: int| 0 <= w < r_old.len() && r_old[w] == State(y as usize);
                            assert(r@[w] == r_old[w]);
                        } else {
                            assert(r@[r@.len() - 1] == State(y as usize));
                        }
                    }
                }
            }
            x = x + 1;
        }
        proof {
            assert forall|s: State| r@.contains(s) <==> self.eps_reaches(state.index(), s.index()) by {
                if r@.contains(s) {
                    let w = choose|w: int| 0 <= w < r@.len() && r@[w] == s;
                    assert(marked@[r@[w].index() as int]);
                }
                if self.eps_reaches(state.index(), s.index()) {
                    let path = choose|path: Seq<nat>| #[trigger] self.is_eps_path(path) && path[0] == state.index() && path.last() == s.index();
                    self.lemma_closed_holds_reached(marked@, state.index(), path);
                    assert(State(s.index() as usize) == s);
                }
            }
        }
        r
    }

    /// The transitions leaving `from`, if any were added.
    pub fn transitions_from(&self, from: &State) -> (r: Option<&IntervalMap<T, Vec<State>>>)
        requires
            self.inv(),
        ensures
            r is Some <==> self.transitions_at(from.index()).len() > 0,
            r is Some ==> r.unwrap().intervals@ == self.transitions_at(from.index()),
            map_wf(self.transitions_at(from.index())),
            forall|j: int, k: int|
                0 <= j < self.transitions_at(from.index()).len() && 0 <= k < self.transitions_at(from.index())[j].1@.len()
                ==> (#[trigger] self.transitions_at(from.index())[j].1@[k]).index() <= self.counter(),
            forall|j: int| 0 <= j < self.transitions_at(from.index()).len() ==> (#[trigger] self.transitions_at(from.index())[j]).1@.len() > 0,
    {
        proof {
            if from.index() < self.transitions@.len() {
                assert(map_wf(self.transitions@[from.index() as int].intervals@));
            }
        }
        if from.0 < self.transitions.len() && self.transitions[from.0].intervals.len() > 0 {
            Some(&self.transitions[from.0])
        } else {
            None
        }
    }

    /// Only states handed out accept.
    pub proof fn lemma_accepting_bounded(&self, s: nat)
        requires
            self.inv(),
        ensures
            self.accepting_at(s) is Some ==> s <= self.counter(),
    {
    }

    /// The highest state number handed out so far.
    pub fn last_state(&self) -> (r: usize)
        ensures
            r == self.counter(),
    {
        self.state_counter
    }

    /// Every state handed out so far, in ascending order.
    pub fn states(&self) -> (r: Vec<State>)
        requires
            self.inv(),
        ensures
            r@.len() == self.counter() + 1,
            forall|i: int| 0 <= i < r@.len() ==> (#[trigger] r@[i]).index() == i,
    {
        let mut r: Vec<State> = Vec::new();
        let mut x: usize = 0;
        while x < self.accepting.len()
            invariant
                self.inv(),
                x <= self.accepting@.len(),
                r@.len() == x,
                forall|i: int| 0 <= i < r@.len() ==> (#[trigger] r@[i]).index() == i,
            decreases self.accepting@.len() - x,
        {
            r.push(State(x));
            x = x + 1;
        }
        r
    }

    /// Adds a transition from `from` to `to` on every value of `on`.
    pub fn add_transition(&mut self, from: State, on: Interval<T>, to: State)
        requires
            old(self).inv(),
            from.index() <= old(self).counter(),
            to.index() <= old(self).counter(),
            meets_at_most_one(old(self).transitions_at(from.index()), on),
        ensures
            final(self).inv(),
            final(self).counter() == old(self).counter(),
            final(self).start_state() == old(self).start_state(),
            forall|s: nat| final(self).accepting_at(s) == old(self).accepting_at(s),
            forall|s: nat| final(self).epsilon_from(s) == old(self).epsilon_from(s),
            forall|s: nat| s != from.index() ==> final(self).transitions_at(s) == old(self).transitions_at(s),
            forall|p: int, t: State|
                #![trigger final(self).steps_to(from.index(), p, t)]
                final(self).steps_to(from.index(), p, t) <==> (old(self).steps_to(from.index(), p, t) || (on.has_point(p) && t == to)),
            forall|p: int|
                #![trigger map_covers(final(self).transitions_at(from.index()), p)]
                map_covers(final(self).transitions_at(from.index()), p) <==> (map_covers(old(self).transitions_at(from.index()), p) || on.has_point(p)),
    {
        let ghost old_map = self.transitions@[from.0 as int].intervals@;
        let mut map = IntervalMap::new();
        std::mem::swap(&mut map, &mut self.transitions[from.0]);
        let mut targets: Vec<State> = Vec::new();
        targets.push(to);
        let ghost value = targets;
        proof {
            assert(map.intervals@ == old_map);
            assert(old_map == old(self).transitions_at(from.index()));
        }
        map.insert_and_unify(on, targets, union_targets);
        let ghost new_map = map.intervals@;
        self.transitions.set(from.0, map);
        proof {
            assert(self.transitions_at(from.index()) == new_map);
            assert forall|s: nat| s != from.index() implies self.transitions_at(s) == old(self).transitions_at(s) by {
                if s < self.transitions@.len() {
                    assert(self.transitions@[s as int] == old(self).transitions@[s as int]);
                }
            }
            assert forall|i: int| 0 <= i < self.transitions@.len() implies map_wf((#[trigger] self.transitions@[i]).intervals@) by {
                if i != from.index() {
                    assert(self.transitions@[i] == old(self).transitions@[i]);
                }
            }
            assert forall|p: int, t: State|
                #![trigger self.steps_to(from.index(), p, t)]
                self.steps_to(from.index(), p, t) <==> (old(self).steps_to(from.index(), p, t) || (on.has_point(p) && t == to)) by {
                lemma_union_step(old_map, new_map, on, value, to, p, t);
            }
            assert forall|i: int, j: int, k: int|
                0 <= i < self.transitions@.len() && 0 <= j < self.transitions@[i].intervals@.len() && 0 <= k < self.transitions@[i].intervals@[j].1@.len()
                implies (#[trigger] self.transitions@[i].intervals@[j].1@[k]).index() <= self.state_counter by {
                if i != from.index() {
                    assert(self.transitions@[i] == old(self).transitions@[i]);
                } else if !new_map[j].0.is_proper() {
                    assert(self.transitions@[i].intervals@[j] == new_map[j]);
                    if new_map[j] != (on, value) {
                        let a = choose|a: int| 0 <= a < old_map.len() && old_map[a] == new_map[j];
                        assert(old(self).transitions@[i].intervals@[a] == old_map[a]);
                        assert(old(self).transitions@[i].intervals@[a].1@[k] == new_map[j].1@[k]);
                    }
                } else {
                    let t = new_map[j].1@[k];
                    new_map[j].0.lemma_proper_has_point();
                    let p = choose|p: int| new_map[j].0.has_point(p);
                    assert(self.steps_to(from.index(), p, t)) by {
                        assert(self.transitions_at(from.index())[j] == new_map[j]);
                    }
                    if old(self).steps_to(from.index(), p, t) {
                        let a = choose|a: int|
                            0 <= a < old_map.len() && (#[trigger] old_map[a]).0.has_point(p) && old_map[a].1@.contains(t);
                        let b = choose|b: int| 0 <= b < old_map[a].1@.len() && old_map[a].1@[b] == t;
                        assert(old(self).transitions@[i].intervals@[a].1@[b] == t);
                    }
                }
            }
            assert forall|i: int, j: int|
                0 <= i < self.transitions@.len() && 0 <= j < self.transitions@[i].intervals@.len()
                implies (#[trigger] self.transitions@[i].intervals@[j]).1@.len() > 0 by {
                if i != from.index() {
                    assert(self.transitions@[i] == old(self).transitions@[i]);
                } else if !new_map[j].0.is_proper() {
                    assert(self.transitions@[i].intervals@[j] == new_map[j]);
                    if new_map[j] != (on, value) {
                        let a = choose|a: int| 0 <= a < old_map.len() && old_map[a] == new_map[j];
                        assert(old(self).transitions@[i].intervals@[a] == old_map[a]);
                    }
                } else {
                    assert(self.transitions@[i].intervals@[j] == new_map[j]);
                    new_map[j].0.lemma_proper_has_point();
                    let p = choose|p: int| new_map[j].0.has_point(p);
                    assert(map_covers(new_map, p));
                    let t = if on.has_point(p) {
                        to
                    } else {
                        let a = choose|a: int| 0 <= a < old_map.len() && (#[trigger] old_map[a]).0.has_point(p);
                        assert(old(self).transitions@[i].intervals@[a] == old_map[a]);
                        assert(old_map[a].1@.len() > 0);
                        assert(old_map[a].1@.contains(old_map[a].1@[0]));
                        old_map[a].1@[0]
                    };
                    assert(self.steps_to(from.index(), p, t));
                    let c = choose|c: int|
                        0 <= c < new_map.len() && (#[trigger] new_map[c]).0.has_point(p) && new_map[c].1@.contains(t);
                    if c < j {
                        assert(new_map[c].0.spec_before(new_map[j].0));
                    } else if j < c {
                        assert(new_map[j].0.spec_before(new_map[c].0));
                    }
                }
            }
        }
    }

    pub fn add_epsilon_transition(&mut self, from: State, to: State)
        requires
            old(self).inv(),
            from.index() <= old(self).counter(),
            to.index() <= old(self).counter(),
        ensures
            final(self).inv(),
            final(self).counter() == old(self).counter(),
            final(self).start_state() == old(self).start_state(),
            forall|s: nat| final(self).accepting_at(s) == old(self).accepting_at(s),
            forall|s: nat| final(self).transitions_at(s) == old(self).transitions_at(s),
            forall|s: nat| s != from.index() ==> final(self).epsilon_from(s) == old(self).epsilon_from(s),
            final(self).epsilon_from(from.index()) == (if old(self).epsilon_from(from.index()).contains(to) {
                old(self).epsilon_from(from.index())
            } else {
                old(self).epsilon_from(from.index()).push(to)
            }),
    {
        let mut targets = Vec::new();
        std::mem::swap(&mut targets, &mut self.epsilon[from.0]);
        let mut found = false;
        let mut k: usize = 0;
        while k < targets.len()
            invariant
                k <= targets@.len(),
                found == (exists|j: int| 0 <= j < k && targets@[j] == to),
            decreases targets@.len() - k,
        {
            if targets[k].0 == to.0 {
                found = true;
            }
            k = k + 1;
        }
        if !found {
            targets.push(to);
        }
        self.epsilon.set(from.0, targets);
        proof {
            assert forall|i: int, k: int|
                0 <= i < self.epsilon@.len() && 0 <= k < self.epsilon@[i]@.len() implies (
                #[trigger] self.epsilon@[i]@[k]).index() <= self.state_counter by {
                if i != from.index() {
                    assert(self.epsilon@[i] == old(self).epsilon@[i]);
                } else if k < old(self).epsilon@[i]@.len() {
                    assert(self.epsilon@[i]@[k] == old(self).epsilon@[i]@[k]);
                }
            }
        }
    }
}


/// The states of both sets, each once if each set holds it once.
fn union_targets(u: Unification<Vec<State>>) -> (r: Vec<State>)
    ensures
        forall|x: State| r@.contains(x) <==> (u.existing@.contains(x) || u.inserted@.contains(x)),
{
    let mut r = u.existing;
    let inserted = u.inserted;
    let ghost existing = r@;
    let mut k: usize = 0;
    while k < inserted.len()
        invariant
            k <= inserted@.len(),
            forall|x: State| r@.contains(x) <==> (existing.contains(x) || inserted@.take(k as int).contains(x)),
        decreases inserted@.len() - k,
    {
        let x = inserted[k];
        let mut found = false;
        let mut j: usize = 0;
        while j < r.len()
            invariant
                j <= r@.len(),
                k < inserted@.len(),
                x == inserted@[k as int],
                found <==> r@.take(j as int).contains(x),
                forall|y: State| r@.contains(y) <==> (existing.contains(y) || inserted@.take(k as int).contains(y)),
            decreases r@.len() - j,
        {
            if r[j].0 == x.0 {
                found = true;
            }
            proof {
                let tj = r@.take(j as int);
                let tj1 = r@.take(j + 1);
                assert(tj1 == tj.push(r@[j as int]));
                if tj1.contains(x) && !tj.contains(x) {
                    let w = choose|w: int| 0 <= w < tj1.len() && tj1[w] == x;
                    if w < j {
                        assert(tj[w] == x);
                    }
                }
                if tj.contains(x) {
                    let w = choose|w: int| 0 <= w < tj.len() && tj[w] == x;
                    assert(tj1[w] == x);
                }
                if r@[j as int].0 == x.0 {
                    assert(tj1[j as int] == x);
                }
            }
            j = j + 1;
        }
        proof {
            assert(r@.take(j as int) == r@);
        }
        let ghost before = r@;
        if !found {
            r.push(x);
        }
        let ghost k0 = k;
        k = k + 1;
        proof {
            let tk = inserted@.take(k0 as int);
            let tk1 = inserted@.take(k as int);
            assert(tk1 == tk.push(x));
            assert(forall|y: State| before.contains(y) <==> (existing.contains(y) || tk.contains(y)));
            assert forall|y: State| r@.contains(y) <==> (existing.contains(y) || tk1.contains(y)) by {
                if !found && r@.contains(y) && !before.contains(y) {
                    let w = choose|w: int| 0 <= w < r@.len() && r@[w] == y;
                    assert(w == before.len());
                }
                if before.contains(y) {
                    let w = choose|w: int| 0 <= w < before.len() && before[w] == y;
                    assert(r@[w] == y);
                }
                if !found && y == x {
                    assert(r@[before.len() as int] == x);
                }
                if tk1.contains(y) && !tk.contains(y) {
                    let w = choose|w: int| 0 <= w < tk1.len() && tk1[w] == y;
                    if w < k0 {
                        assert(tk[w] == y);
                    }
                }
                if tk.contains(y) {
                    let w = choose|w: int| 0 <= w < tk.len() && tk[w] == y;
                    assert(tk1[w] == y);
                }
                if y == x {
                    assert(tk1[k0 as int] == y);
                }
            }
        }
    }
    proof {
        assert(inserted@.take(k as int) == inserted@);
        assert(existing == u.existing@);
        assert(inserted@ == u.inserted@);
        assert forall|x: State| r@.contains(x) <==> (u.existing@.contains(x) || u.inserted@.contains(x)) by {
            assert(r@.contains(x) <==> (existing.contains(x) || inserted@.take(k as int).contains(x)));
        }
    }
    r
}

/// Two copies of a set of states hold the same states.
proof fn lemma_copy_same(a: Vec<State>, b: Vec<State>)
    requires
        copy_of(a, b),
    ensures
        a@ == b@,
{
    if !(a == b) {
        assert forall|i: int| 0 <= i < a@.len() implies a@[i] == b@[i] by {
            assert(cloned(a@[i], b@[i]));
        }
        assert(a@ =~= b@);
    }
}

/// In a well-formed map at most one key holds a point.
proof fn lemma_single_holder<T: Endpoint, V>(m: Seq<(Interval<T>, V)>, i: int, j: int, p: int)
    requires
        map_wf(m),
        0 <= i < m.len(),
        0 <= j < m.len(),
        m[i].0.has_point(p),
        m[j].0.has_point(p),
    ensures
        i == j,
{
    if i < j {
        assert(m[i].0.spec_before(m[j].0));
    } else if j < i {
        assert(m[j].0.spec_before(m[i].0));
    }
}

/// After adding `to` on `on` with set union, a point leads to a state
/// exactly when it did before or the point is in `on` and the state is `to`.
proof fn lemma_union_step<T: Endpoint>(
    old_map: Seq<(Interval<T>, Vec<State>)>,
    new_map: Seq<(Interval<T>, Vec<State>)>,
    on: Interval<T>,
    value: Vec<State>,
    to: State,
    p: int,
    t: State,
)
    requires
        map_wf(old_map),
        map_wf(new_map),
        value@ == seq![to],
        forall|q: int| #![trigger map_covers(new_map, q)] map_covers(new_map, q) <==> (map_covers(old_map, q) || on.has_point(q)),
        forall|q: int, w: Vec<State>| #![trigger maps_to(new_map, q, w)] maps_to(new_map, q, w) ==> inserted_value(union_targets, old_map, on, value, q, w),
    ensures
        (exists|i: int| 0 <= i < new_map.len() && (#[trigger] new_map[i]).0.has_point(p) && new_map[i].1@.contains(t))
        <==> ((exists|i: int| 0 <= i < old_map.len() && (#[trigger] old_map[i]).0.has_point(p) && old_map[i].1@.contains(t))
            || (on.has_point(p) && t == to)),
{
    let old_holds = exists|i: int| 0 <= i < old_map.len() && (#[trigger] old_map[i]).0.has_point(p) && old_map[i].1@.contains(t);
    let new_holds = exists|i: int| 0 <= i < new_map.len() && (#[trigger] new_map[i]).0.has_point(p) && new_map[i].1@.contains(t);
    if map_covers(new_map, p) {
        let i = choose|i: int| 0 <= i < new_map.len() && (#[trigger] new_map[i]).0.has_point(p);
        let w = new_map[i].1;
        assert(maps_to(new_map, p, w));
        assert(inserted_value(union_targets, old_map, on, value, p, w));
        // What the point maps to now, in terms of what it mapped to before.
        assert(new_holds <==> w@.contains(t)) by {
            if new_holds {
                let j = choose|j: int| 0 <= j < new_map.len() && (#[trigger] new_map[j]).0.has_point(p) && new_map[j].1@.contains(t);
                lemma_single_holder(new_map, i, j, p);
            }
        }
        if on.has_point(p) && map_covers(old_map, p) {
            let e = choose|e: Vec<State>| maps_to(old_map, p, e) && unified_by(union_targets, e, value, w);
            let a = choose|a: int| 0 <= a < old_map.len() && (#[trigger] old_map[a]).0.has_point(p) && old_map[a].1 == e;
            let (e2, i2) = choose|e2: Vec<State>, i2: Vec<State>|
                copy_of(e, e2) && copy_of(value, i2) && call_ensures(
                    union_targets,
                    (Unification { existing: e2, inserted: i2 },),
                    w,
                );
            lemma_copy_same(e, e2);
            lemma_copy_same(value, i2);
            assert(w@.contains(t) <==> (e@.contains(t) || i2@.contains(t)));
            assert(i2@.contains(t) <==> t == to) by {
                if t == to {
                    assert(i2@[0] == to);
                }
            }
            assert(old_holds <==> e@.contains(t)) by {
                if old_holds {
                    let j = choose|j: int| 0 <= j < old_map.len() && (#[trigger] old_map[j]).0.has_point(p) && old_map[j].1@.contains(t);
                    lemma_single_holder(old_map, a, j, p);
                }
            }
        } else if on.has_point(p) {
            assert(copy_of(value, w));
            lemma_copy_same(value, w);
            assert(!old_holds) by {
                if old_holds {
                    let j = choose|j: int| 0 <= j < old_map.len() && (#[trigger] old_map[j]).0.has_point(p) && old_map[j].1@.contains(t);
                    assert(map_covers(old_map, p));
                }
            }
            assert(w@.contains(t) <==> t == to) by {
                if t == to {
                    assert(w@[0] == to);
                }
            }
        } else {
            let e = choose|e: Vec<State>| maps_to(old_map, p, e) && copy_of(e, w);
            let a = choose|a: int| 0 <= a < old_map.len() && (#[trigger] old_map[a]).0.has_point(p) && old_map[a].1 == e;
            lemma_copy_same(e, w);
            assert(old_holds <==> e@.contains(t)) by {
                if old_holds {
                    let j = choose|j: int| 0 <= j < old_map.len() && (#[trigger] old_map[j]).0.has_point(p) && old_map[j].1@.contains(t);
                    lemma_single_holder(old_map, a, j, p);
                }
            }
        }
    } else {
        assert(!new_holds) by {
            if new_holds {
                let j = choose|j: int| 0 <= j < new_map.len() && (#[trigger] new_map[j]).0.has_point(p) && new_map[j].1@.contains(t);
                assert(map_covers(new_map, p));
            }
        }
        assert(!old_holds) by {
            if old_holds {
                let j = choose|j: int| 0 <= j < old_map.len() && (#[trigger] old_map[j]).0.has_point(p) && old_map[j].1@.contains(t);
                assert(map_covers(old_map, p));
            }
        }
    }
}


impl<T: Endpoint, AcceptingValue> Automaton<T, AcceptingValue> {
    /// `self` came from `prev` by handing out `n` new states and adding
    /// transitions from new states only: the accepting states, and what
    /// leaves the old states, are as they were.
    pub open spec fn extends(&self, prev: &Self, n: int) -> bool {
        &&& self.inv()
        &&& self.counter() == prev.counter() + n
        &&& self.start_state() == prev.start_state()
        &&& forall|s: nat| #[trigger] self.accepting_at(s) == prev.accepting_at(s)
        &&& forall|s: nat| s <= prev.counter() ==> #[trigger] self.epsilon_from(s) == prev.epsilon_from(s)
        &&& forall|s: nat| s <= prev.counter() ==> #[trigger] self.transitions_at(s) == prev.transitions_at(s)
    }

    /// `s` was handed out after `prev` and is among the states of `self`.
    pub open spec fn is_new_state(&self, prev: &Self, s: State) -> bool {
        prev.counter() < s.index() <= self.counter()
    }

    /// A state not handed out yet has no transitions.
    proof fn lemma_unused_state_empty(&self, s: nat)
        requires
            self.inv(),
            s > self.counter(),
        ensures
            self.transitions_at(s).len() == 0,
            self.epsilon_from(s).len() == 0,
    {
    }
}

/// A run on `w1` to `y` followed by a run on `w2` from `y` is a run on
/// `w1 + w2`.
pub proof fn lemma_run_concat<T: Endpoint, AV>(a: &Automaton<T, AV>, x: nat, w1: Seq<int>, y: nat, n1: nat, w2: Seq<int>, z: nat, n2: nat)
    requires
        a.run(x, w1, y, n1),
        a.run(y, w2, z, n2),
    ensures
        a.run(x, w1 + w2, z, n1 + n2),
    decreases n1,
{
    if n1 == 0 {
        assert(w1 + w2 =~= w2);
    } else if exists|m: nat| a.eps_step(x, m) && a.run(m, w1, y, (n1 - 1) as nat) {
        let m = choose|m: nat| a.eps_step(x, m) && a.run(m, w1, y, (n1 - 1) as nat);
        lemma_run_concat(a, m, w1, y, (n1 - 1) as nat, w2, z, n2);
        assert(a.run(m, w1 + w2, z, (n1 + n2 - 1) as nat));
    } else {
        let t = choose|t: State| a.steps_to(x, w1[0], t) && a.run(t.index(), w1.drop_first(), y, (n1 - 1) as nat);
        lemma_run_concat(a, t.index(), w1.drop_first(), y, (n1 - 1) as nat, w2, z, n2);
        assert((w1 + w2).drop_first() =~= w1.drop_first() + w2);
        assert((w1 + w2)[0] == w1[0]);
        assert(a.run(t.index(), (w1 + w2).drop_first(), z, (n1 + n2 - 1) as nat));
    }
}

/// What `w1` reads to `y` and `w2` reads on from `y`, `w1 + w2` reads.
pub proof fn lemma_reads_concat<T: Endpoint, AV>(a: &Automaton<T, AV>, x: nat, w1: Seq<int>, y: nat, w2: Seq<int>, z: nat)
    requires
        a.reads(x, w1, y),
        a.reads(y, w2, z),
    ensures
        a.reads(x, w1 + w2, z),
{
    let n1 = choose|n: nat| a.run(x, w1, y, n);
    let n2 = choose|n: nat| a.run(y, w2, z, n);
    lemma_run_concat(a, x, w1, y, n1, w2, z, n2);
}

/// Every state reads the empty word to itself.
pub proof fn lemma_reads_here<T: Endpoint, AV>(a: &Automaton<T, AV>, x: nat)
    ensures
        a.reads(x, Seq::<int>::empty(), x),
{
    assert(a.run(x, Seq::<int>::empty(), x, 0));
}

/// An epsilon transition reads the empty word.
pub proof fn lemma_reads_eps<T: Endpoint, AV>(a: &Automaton<T, AV>, x: nat, y: nat)
    requires
        a.eps_step(x, y),
    ensures
        a.reads(x, Seq::<int>::empty(), y),
{
    assert(a.run(y, Seq::<int>::empty(), y, 0));
    assert(a.run(x, Seq::<int>::empty(), y, 1));
}

/// A transition on `p` reads the word of `p` alone.
pub proof fn lemma_reads_point<T: Endpoint, AV>(a: &Automaton<T, AV>, x: nat, p: int, t: State)
    requires
        a.steps_to(x, p, t),
    ensures
        a.reads(x, seq![p], t.index()),
{
    assert(seq![p].drop_first() =~= Seq::<int>::empty());
    assert(seq![p][0] == p);
    assert(a.steps_to(x, seq![p][0], t));
    assert(a.run(t.index(), seq![p].drop_first(), t.index(), 0));
    assert(a.run(x, seq![p], t.index(), 1));
}

/// Runs of an automaton are runs of any automaton with more transitions.
pub proof fn lemma_run_lift<T: Endpoint, AV>(a: &Automaton<T, AV>, b: &Automaton<T, AV>, x: nat, w: Seq<int>, y: nat, n: nat)
    requires
        a.below(b),
        a.run(x, w, y, n),
    ensures
        b.run(x, w, y, n),
    decreases n,
{
    if n > 0 {
        if exists|m: nat| a.eps_step(x, m) && a.run(m, w, y, (n - 1) as nat) {
            let m = choose|m: nat| a.eps_step(x, m) && a.run(m, w, y, (n - 1) as nat);
            lemma_run_lift(a, b, m, w, y, (n - 1) as nat);
            assert(b.eps_step(x, m));
        } else {
            let t = choose|t: State| a.steps_to(x, w[0], t) && a.run(t.index(), w.drop_first(), y, (n - 1) as nat);
            lemma_run_lift(a, b, t.index(), w.drop_first(), y, (n - 1) as nat);
            assert(b.steps_to(x, w[0], t));
        }
    }
}

/// What an automaton reads, any automaton with more transitions reads.
pub proof fn lemma_reads_lift<T: Endpoint, AV>(a: &Automaton<T, AV>, b: &Automaton<T, AV>, x: nat, w: Seq<int>, y: nat)
    requires
        a.below(b),
        a.reads(x, w, y),
    ensures
        b.reads(x, w, y),
{
    let n = choose|n: nat| a.run(x, w, y, n);
    lemma_run_lift(a, b, x, w, y, n);
}

/// Having more transitions is transitive.
pub proof fn lemma_below_trans<T: Endpoint, AV>(a: &Automaton<T, AV>, b: &Automaton<T, AV>, c: &Automaton<T, AV>)
    requires
        a.below(b),
        b.below(c),
    ensures
        a.below(c),
{
}

/// An automaton with the same tables has the same transitions.
proof fn lemma_below_same<T: Endpoint, AV>(a: &Automaton<T, AV>, b: &Automaton<T, AV>)
    requires
        forall|s: nat| b.epsilon_from(s) == a.epsilon_from(s),
        forall|s: nat| b.transitions_at(s) == a.transitions_at(s),
    ensures
        a.below(b),
{
    assert forall|x: nat, z: nat| #[trigger] a.eps_step(x, z) implies b.eps_step(x, z) by {
        assert(b.epsilon_from(x) == a.epsilon_from(x));
    }
    assert forall|x: nat, p: int, t: State| #[trigger] a.steps_to(x, p, t) implies b.steps_to(x, p, t) by {
        assert(b.transitions_at(x) == a.transitions_at(x));
    }
}

/// A growth of the automaton keeps its transitions.
proof fn lemma_below_extends<T: Endpoint, AV>(a: &Automaton<T, AV>, b: &Automaton<T, AV>, n: int)
    requires
        a.inv(),
        b.extends(a, n),
    ensures
        a.below(b),
{
    assert forall|x: nat, z: nat| #[trigger] a.eps_step(x, z) implies b.eps_step(x, z) by {
        if x > a.counter() {
            a.lemma_unused_state_empty(x);
        }
        assert(b.epsilon_from(x) == a.epsilon_from(x));
    }
    assert forall|x: nat, p: int, t: State| #[trigger] a.steps_to(x, p, t) implies b.steps_to(x, p, t) by {
        if x > a.counter() {
            a.lemma_unused_state_empty(x);
        }
        assert(b.transitions_at(x) == a.transitions_at(x));
    }
}

/// Adding an epsilon transition keeps the transitions there were.
proof fn lemma_below_eps_added<T: Endpoint, AV>(a: &Automaton<T, AV>, b: &Automaton<T, AV>, from: nat, to: State)
    requires
        forall|s: nat| b.transitions_at(s) == a.transitions_at(s),
        forall|s: nat| s != from ==> b.epsilon_from(s) == a.epsilon_from(s),
        b.epsilon_from(from) == (if a.epsilon_from(from).contains(to) {
            a.epsilon_from(from)
        } else {
            a.epsilon_from(from).push(to)
        }),
    ensures
        a.below(b),
        b.eps_step(from, to.index()),
{
    assert forall|x: nat, z: nat| #[trigger] a.eps_step(x, z) implies b.eps_step(x, z) by {
        let k = choose|k: int| 0 <= k < a.epsilon_from(x).len() && (#[trigger] a.epsilon_from(x)[k]).index() == z;
        assert(b.epsilon_from(x)[k] == a.epsilon_from(x)[k]);
    }
    assert forall|x: nat, p: int, t: State| #[trigger] a.steps_to(x, p, t) implies b.steps_to(x, p, t) by {
        assert(b.transitions_at(x) == a.transitions_at(x));
    }
    if a.epsilon_from(from).contains(to) {
        let k = choose|k: int| 0 <= k < a.epsilon_from(from).len() && a.epsilon_from(from)[k] == to;
        assert(b.epsilon_from(from)[k].index() == to.index());
    } else {
        let k = a.epsilon_from(from).len() as int;
        assert(b.epsilon_from(from)[k] == to);
    }
}

/// `b` grew from `a`: it has every transition of `a`, and every transition
/// it has from a state of `a` was there before or is one of the epsilon
/// transitions `added`.
spec fn grew<T: Endpoint, AV>(a: &Automaton<T, AV>, b: &Automaton<T, AV>, added: Set<(nat, nat)>) -> bool {
    &&& a.below(b)
    &&& a.counter() <= b.counter()
    &&& forall|x: nat, z: nat|
        #![trigger b.eps_step(x, z)]
        x <= a.counter() && b.eps_step(x, z) ==> a.eps_step(x, z) || added.contains((x, z))
    &&& forall|x: nat, p: int, t: State|
        #![trigger b.steps_to(x, p, t)]
        x <= a.counter() && b.steps_to(x, p, t) ==> a.steps_to(x, p, t)
}

/// Every transition leaving a state numbered in `(lo, hi]` stays there.
pub open spec fn closed_region<T: Endpoint, AV>(a: &Automaton<T, AV>, lo: nat, hi: nat) -> bool {
    &&& forall|x: nat, z: nat| #![trigger a.eps_step(x, z)] lo < x <= hi && a.eps_step(x, z) ==> lo < z <= hi
    &&& forall|x: nat, p: int, t: State| #![trigger a.steps_to(x, p, t)] lo < x <= hi && a.steps_to(x, p, t) ==> lo < t.index() <= hi
}

/// Inside `(lo, hi]`, `b` has only transitions `a` had, but for epsilon
/// transitions from `e` that leave the region.
spec fn kept<T: Endpoint, AV>(a: &Automaton<T, AV>, b: &Automaton<T, AV>, lo: nat, hi: nat, e: nat) -> bool {
    &&& forall|x: nat, z: nat|
        #![trigger b.eps_step(x, z)]
        lo < x <= hi && b.eps_step(x, z) && (x != e || lo < z <= hi) ==> a.eps_step(x, z)
    &&& forall|x: nat, p: int, t: State| #![trigger b.steps_to(x, p, t)] lo < x <= hi && b.steps_to(x, p, t) ==> a.steps_to(x, p, t)
}

/// A growth of the automaton grows it by no epsilon transition of an old
/// state.
proof fn lemma_grew_extends<T: Endpoint, AV>(a: &Automaton<T, AV>, b: &Automaton<T, AV>, n: int)
    requires
        a.inv(),
        n >= 0,
        b.extends(a, n),
    ensures
        grew(a, b, Set::empty()),
{
    lemma_below_extends(a, b, n);
    assert forall|x: nat, z: nat| x <= a.counter() && #[trigger] b.eps_step(x, z) implies a.eps_step(x, z) by {
        assert(b.epsilon_from(x) == a.epsilon_from(x));
    }
    assert forall|x: nat, p: int, t: State| x <= a.counter() && #[trigger] b.steps_to(x, p, t) implies a.steps_to(x, p, t) by {
        assert(b.transitions_at(x) == a.transitions_at(x));
    }
}

/// The same tables grow nothing.
proof fn lemma_grew_same<T: Endpoint, AV>(a: &Automaton<T, AV>, b: &Automaton<T, AV>)
    requires
        a.counter() <= b.counter(),
        forall|s: nat| b.epsilon_from(s) == a.epsilon_from(s),
        forall|s: nat| b.transitions_at(s) == a.transitions_at(s),
    ensures
        grew(a, b, Set::empty()),
{
    lemma_below_same(a, b);
    assert forall|x: nat, z: nat| x <= a.counter() && #[trigger] b.eps_step(x, z) implies a.eps_step(x, z) by {
        assert(b.epsilon_from(x) == a.epsilon_from(x));
    }
    assert forall|x: nat, p: int, t: State| x <= a.counter() && #[trigger] b.steps_to(x, p, t) implies a.steps_to(x, p, t) by {
        assert(b.transitions_at(x) == a.transitions_at(x));
    }
}

/// Adding an epsilon transition grows the automaton by it.
proof fn lemma_grew_eps<T: Endpoint, AV>(a: &Automaton<T, AV>, b: &Automaton<T, AV>, from: nat, to: State)
    requires
        a.counter() <= b.counter(),
        forall|s: nat| b.transitions_at(s) == a.transitions_at(s),
        forall|s: nat| s != from ==> b.epsilon_from(s) == a.epsilon_from(s),
        b.epsilon_from(from) == (if a.epsilon_from(from).contains(to) {
            a.epsilon_from(from)
        } else {
            a.epsilon_from(from).push(to)
        }),
    ensures
        grew(a, b, set![(from, to.index())]),
        b.eps_step(from, to.index()),
{
    lemma_below_eps_added(a, b, from, to);
    assert forall|x: nat, z: nat| x <= a.counter() && #[trigger] b.eps_step(x, z) implies a.eps_step(x, z) || set![(from, to.index())].contains((x, z)) by {
        let k = choose|k: int| 0 <= k < b.epsilon_from(x).len() && (#[trigger] b.epsilon_from(x)[k]).index() == z;
        if x != from {
            assert(a.epsilon_from(x)[k].index() == z);
        } else if k < a.epsilon_from(from).len() {
            assert(a.epsilon_from(x)[k].index() == z);
        } else {
            assert(b.epsilon_from(from)[k] == to);
        }
    }
    assert forall|x: nat, p: int, t: State| x <= a.counter() && #[trigger] b.steps_to(x, p, t) implies a.steps_to(x, p, t) by {
        assert(b.transitions_at(x) == a.transitions_at(x));
    }
}

/// Growths compose.
proof fn lemma_grew_trans<T: Endpoint, AV>(a: &Automaton<T, AV>, b: &Automaton<T, AV>, c: &Automaton<T, AV>, e1: Set<(nat, nat)>, e2: Set<(nat, nat)>)
    requires
        grew(a, b, e1),
        grew(b, c, e2),
    ensures
        grew(a, c, e1.union(e2)),
{
    lemma_below_trans(a, b, c);
    assert forall|x: nat, z: nat| x <= a.counter() && #[trigger] c.eps_step(x, z) implies a.eps_step(x, z) || e1.union(e2).contains((x, z)) by {
        if b.eps_step(x, z) {
        }
    }
    assert forall|x: nat, p: int, t: State| x <= a.counter() && #[trigger] c.steps_to(x, p, t) implies a.steps_to(x, p, t) by {
        assert(b.steps_to(x, p, t));
    }
}

/// A region of an automaton that grew only by epsilon transitions leaving
/// it from `e` is kept.
proof fn lemma_kept_from_grew<T: Endpoint, AV>(a: &Automaton<T, AV>, b: &Automaton<T, AV>, added: Set<(nat, nat)>, lo: nat, hi: nat, e: nat)
    requires
        grew(a, b, added),
        hi <= a.counter(),
        forall|x: nat, z: nat| added.contains((x, z)) && lo < x <= hi ==> x == e && !(lo < z <= hi),
    ensures
        kept(a, b, lo, hi, e),
{
    assert forall|x: nat, z: nat|
        lo < x <= hi && #[trigger] b.eps_step(x, z) && (x != e || lo < z <= hi) implies a.eps_step(x, z) by {
        if !a.eps_step(x, z) {
            assert(added.contains((x, z)));
        }
    }
}

/// A state with no transitions ends every run from it at once.
proof fn lemma_stuck<T: Endpoint, AV>(a: &Automaton<T, AV>, x: nat, w: Seq<int>, y: nat, n: nat)
    requires
        forall|z: nat| !#[trigger] a.eps_step(x, z),
        forall|p: int, t: State| !#[trigger] a.steps_to(x, p, t),
        a.run(x, w, y, n),
    ensures
        n == 0,
        y == x,
        w.len() == 0,
{
    if n > 0 {
        if exists|z: nat| a.eps_step(x, z) && a.run(z, w, y, (n - 1) as nat) {
            let z = choose|z: nat| a.eps_step(x, z) && a.run(z, w, y, (n - 1) as nat);
            assert(!a.eps_step(x, z));
        } else {
            let t = choose|t: State| a.steps_to(x, w[0], t) && a.run(t.index(), w.drop_first(), y, (n - 1) as nat);
            assert(!a.steps_to(x, w[0], t));
        }
    }
}

/// A run from a region either stays in it, reading as the kept automaton
/// `o` does, or leaves it once from `e` by an epsilon transition after a
/// prefix that `o` reads to `e`.
proof fn lemma_exit<T: Endpoint, AV>(o: &Automaton<T, AV>, a: &Automaton<T, AV>, lo: nat, hi: nat, e: nat, x: nat, w: Seq<int>, y: nat, n: nat)
    requires
        closed_region(o, lo, hi),
        kept(o, a, lo, hi, e),
        lo < e <= hi,
        lo < x <= hi,
        a.run(x, w, y, n),
    ensures
        (lo < y <= hi && o.run(x, w, y, n)) || exists|i: int, z: nat, m: nat|
            #![trigger a.run(z, w.skip(i), y, m)]
            0 <= i <= w.len() && m < n && o.reads(x, w.take(i), e) && a.eps_step(e, z) && !(lo < z <= hi) && a.run(z, w.skip(i), y, m),
    decreases n,
{
    if n == 0 {
        return;
    }
    if exists|z: nat| a.eps_step(x, z) && a.run(z, w, y, (n - 1) as nat) {
        let z = choose|z: nat| a.eps_step(x, z) && a.run(z, w, y, (n - 1) as nat);
        if !(lo < z <= hi) && x == e {
            lemma_reads_here(o, e);
            assert(w.take(0) =~= Seq::<int>::empty());
            assert(w.skip(0) =~= w);
            assert(a.run(z, w.skip(0), y, (n - 1) as nat));
        } else {
            assert(o.eps_step(x, z));
            assert(lo < z <= hi);
            lemma_exit(o, a, lo, hi, e, z, w, y, (n - 1) as nat);
            if lo < y <= hi && o.run(z, w, y, (n - 1) as nat) {
                assert(o.run(x, w, y, n));
            } else {
                let (i, z2, m) = choose|i: int, z2: nat, m: nat|
                    #![trigger a.run(z2, w.skip(i), y, m)]
                    0 <= i <= w.len() && m < n - 1 && o.reads(z, w.take(i), e) && a.eps_step(e, z2) && !(lo < z2 <= hi) && a.run(z2, w.skip(i), y, m);
                lemma_reads_eps(o, x, z);
                lemma_reads_concat(o, x, Seq::<int>::empty(), z, w.take(i), e);
                assert(Seq::<int>::empty() + w.take(i) =~= w.take(i));
                assert(a.run(z2, w.skip(i), y, m));
            }
        }
    } else {
        let t = choose|t: State| a.steps_to(x, w[0], t) && a.run(t.index(), w.drop_first(), y, (n - 1) as nat);
        assert(o.steps_to(x, w[0], t));
        let v = w.drop_first();
        lemma_exit(o, a, lo, hi, e, t.index(), v, y, (n - 1) as nat);
        if lo < y <= hi && o.run(t.index(), v, y, (n - 1) as nat) {
            assert(o.run(x, w, y, n));
        } else {
            let (i, z2, m) = choose|i: int, z2: nat, m: nat|
                #![trigger a.run(z2, v.skip(i), y, m)]
                0 <= i <= v.len() && m < n - 1 && o.reads(t.index(), v.take(i), e) && a.eps_step(e, z2) && !(lo < z2 <= hi) && a.run(z2, v.skip(i), y, m);
            lemma_reads_point(o, x, w[0], t);
            lemma_reads_concat(o, x, seq![w[0]], t.index(), v.take(i), e);
            assert(seq![w[0]] + v.take(i) =~= w.take(i + 1));
            assert(v.skip(i) =~= w.skip(i + 1));
            assert(a.run(z2, w.skip(i + 1), y, m));
        }
    }
}

/// A fragment of two states, the first leading to the second on the points
/// of `pred` and nothing else, is closed and reads only single points of
/// `pred`.
proof fn lemma_two_state_fragment<T: Endpoint, AV>(a: &Automaton<T, AV>, lo: nat, start: State, end: State, pred: spec_fn(int) -> bool)
    requires
        start.index() == lo + 1,
        end.index() == lo + 2,
        a.epsilon_from(start.index()).len() == 0,
        a.epsilon_from(end.index()).len() == 0,
        a.transitions_at(end.index()).len() == 0,
        forall|p: int, t: State| #[trigger] a.steps_to(start.index(), p, t) <==> (t == end && pred(p)),
    ensures
        closed_region(a, lo, lo + 2),
        forall|w: Seq<int>| #[trigger] a.reads(start.index(), w, end.index()) ==> w.len() == 1 && pred(w[0]),
{
    assert forall|x: nat, z: nat| lo < x <= lo + 2 && #[trigger] a.eps_step(x, z) implies lo < z <= lo + 2 by {
        assert(x == start.index() || x == end.index());
    }
    assert forall|x: nat, p: int, t: State| lo < x <= lo + 2 && #[trigger] a.steps_to(x, p, t) implies lo < t.index() <= lo + 2 by {
        if x == start.index() {
            assert(t == end);
        } else {
            assert(x == end.index());
        }
    }
    assert forall|w: Seq<int>| #[trigger] a.reads(start.index(), w, end.index()) implies w.len() == 1 && pred(w[0]) by {
        let n = choose|n: nat| a.run(start.index(), w, end.index(), n);
        assert(n > 0);
        if exists|z: nat| a.eps_step(start.index(), z) && a.run(z, w, end.index(), (n - 1) as nat) {
            let z = choose|z: nat| a.eps_step(start.index(), z) && a.run(z, w, end.index(), (n - 1) as nat);
        } else {
            let t = choose|t: State| a.steps_to(start.index(), w[0], t) && a.run(t.index(), w.drop_first(), end.index(), (n - 1) as nat);
            assert(t == end);
            lemma_stuck(a, end.index(), w.drop_first(), end.index(), (n - 1) as nat);
        }
    }
}

/// A run from a region to a state `end` outside it with no transitions,
/// where the region's only way out leads from `e` to `end`, reads as the
/// region alone reads to `e`.
proof fn lemma_branch_to_end<T: Endpoint, AV>(o: &Automaton<T, AV>, a: &Automaton<T, AV>, lo: nat, hi: nat, s: nat, e: nat, end: nat, w: Seq<int>, n: nat)
    requires
        closed_region(o, lo, hi),
        kept(o, a, lo, hi, e),
        lo < s <= hi,
        lo < e <= hi,
        !(lo < end <= hi),
        forall|z: nat| a.eps_step(e, z) && !(lo < z <= hi) ==> z == end,
        forall|z: nat| !#[trigger] a.eps_step(end, z),
        forall|p: int, t: State| !#[trigger] a.steps_to(end, p, t),
        a.run(s, w, end, n),
    ensures
        o.reads(s, w, e),
{
    lemma_exit(o, a, lo, hi, e, s, w, end, n);
    let (i, z, m) = choose|i: int, z: nat, m: nat|
        #![trigger a.run(z, w.skip(i), end, m)]
        0 <= i <= w.len() && m < n && o.reads(s, w.take(i), e) && a.eps_step(e, z) && !(lo < z <= hi) && a.run(z, w.skip(i), end, m);
    assert(z == end);
    lemma_stuck(a, end, w.skip(i), end, m);
    assert(w.take(i) =~= w);
}

/// Growth composes.
proof fn lemma_extends_trans<T: Endpoint, AV>(a: &Automaton<T, AV>, b: &Automaton<T, AV>, c: &Automaton<T, AV>, n: int, m: int)
    requires
        n >= 0,
        b.extends(a, n),
        c.extends(b, m),
    ensures
        c.extends(a, n + m),
{
    assert forall|s: nat| s <= a.counter() implies #[trigger] c.epsilon_from(s) == a.epsilon_from(s) by {
        assert(c.epsilon_from(s) == b.epsilon_from(s));
    }
    assert forall|s: nat| s <= a.counter() implies #[trigger] c.transitions_at(s) == a.transitions_at(s) by {
        assert(c.transitions_at(s) == b.transitions_at(s));
    }
    assert forall|s: nat| #[trigger] c.accepting_at(s) == a.accepting_at(s) by {
        assert(c.accepting_at(s) == b.accepting_at(s));
    }
}

impl<T: Endpoint, AcceptingValue: Default> Automaton<T, AcceptingValue> {
    /// Marks `state` accepting, with the default value.
    pub fn add_accepting(&mut self, state: State)
        requires
            old(self).inv(),
            state.index() <= old(self).counter(),
        ensures
            final(self).inv(),
            final(self).counter() == old(self).counter(),
            final(self).start_state() == old(self).start_state(),
            final(self).accepting_at(state.index()) is Some,
            forall|s: nat| s != state.index() ==> final(self).accepting_at(s) == old(self).accepting_at(s),
            forall|s: nat| final(self).epsilon_from(s) == old(self).epsilon_from(s),
            forall|s: nat| final(self).transitions_at(s) == old(self).transitions_at(s),
    {
        self.add_accepting_with_value(state, AcceptingValue::default());
    }
}

/// The height of a syntax tree.
pub open spec fn node_height(rx: &Node) -> nat
    decreases rx,
{
    match rx {
        Node::Alternative { first, second } => 1 + vstd::math::max(node_height(first) as int, node_height(second) as int) as nat,
        Node::Sequence { first, second } => 1 + vstd::math::max(node_height(first) as int, node_height(second) as int) as nat,
        Node::Quantified { subnode, .. } => 1 + node_height(subnode),
        _ => 0,
    }
}

/// The number of states Thompson's construction hands out for `rx`.
pub open spec fn thompson_size(rx: &Node) -> int
    decreases rx,
{
    match rx {
        Node::Alternative { first, second } => 2 + thompson_size(first) + thompson_size(second),
        Node::Sequence { first, second } => thompson_size(first) + thompson_size(second),
        Node::Quantified { subnode, quantifier } => match quantifier {
            Quantifier::AtLeast(count) => 1 + (*count + 1) * thompson_size(subnode),
            Quantifier::Between(least, most) => 2 + *most * thompson_size(subnode),
        },
        _ => 2,
    }
}

/// Every bounded repetition in `rx` has its lower bound at most its upper one.
pub open spec fn repetitions_ordered(rx: &Node) -> bool
    decreases rx,
{
    match rx {
        Node::Alternative { first, second } => repetitions_ordered(first) && repetitions_ordered(second),
        Node::Sequence { first, second } => repetitions_ordered(first) && repetitions_ordered(second),
        Node::Quantified { subnode, quantifier } => repetitions_ordered(subnode) && match quantifier {
            Quantifier::Between(least, most) => *least <= *most,
            _ => true,
        },
        _ => true,
    }
}

/// Every fragment has at least one state.
proof fn lemma_thompson_size_pos(rx: &Node)
    ensures
        thompson_size(rx) >= 1,
    decreases rx,
{
    match rx {
        Node::Alternative { first, second } => {
            lemma_thompson_size_pos(first);
            lemma_thompson_size_pos(second);
        },
        Node::Sequence { first, second } => {
            lemma_thompson_size_pos(first);
            lemma_thompson_size_pos(second);
        },
        Node::Quantified { subnode, quantifier } => {
            lemma_thompson_size_pos(subnode);
            let size = thompson_size(subnode);
            match quantifier {
                Quantifier::AtLeast(count) => {
                    assert((*count + 1) * size >= 0) by (nonlinear_arith)
                        requires size >= 1, *count >= 0;
                },
                Quantifier::Between(least, most) => {
                    assert(*most * size >= 0) by (nonlinear_arith)
                        requires size >= 1, *most >= 0;
                },
            }
        },
        _ => {},
    }
}

/// Adds the fragment of `rx` to the automaton: its states are all new, and
/// transitions only leave new states.
#[verifier::spinoff_prover]
#[verifier::rlimit(20)]
fn thompson_construct<AV>(nfa: &mut Automaton<char, AV>, rx: &Node) -> (r: (State, State))
    requires
        old(nfa).inv(),
        repetitions_ordered(rx),
        old(nfa).counter() + thompson_size(rx) <= usize::MAX,
    ensures
        final(nfa).extends(old(nfa), thompson_size(rx)),
        final(nfa).is_new_state(old(nfa), r.0),
        final(nfa).is_new_state(old(nfa), r.1),
        forall|w: Seq<int>| #[trigger] matches_word(rx, w) ==> final(nfa).reads(r.0.index(), w, r.1.index()),
        closed_region(final(nfa), old(nfa).counter(), final(nfa).counter()),
        forall|w: Seq<int>| #[trigger] final(nfa).reads(r.0.index(), w, r.1.index()) ==> matches_word(rx, w),
    decreases node_height(rx), 1nat,
{
    match rx {
        Node::Alternative { first, second } => {
            let r = thompson_construct_alternative(nfa, first, second);
            proof {
                assert forall|w: Seq<int>| #[trigger] matches_word(rx, w) implies nfa.reads(r.0.index(), w, r.1.index()) by {
                    if matches_word(first, w) {
                    } else {
                        assert(matches_word(second, w));
                    }
                }
                assert forall|w: Seq<int>| #[trigger] nfa.reads(r.0.index(), w, r.1.index()) implies matches_word(rx, w) by {
                    assert(matches_word(first, w) || matches_word(second, w));
                }
            }
            r
        },
        Node::Sequence { first, second } => {
            let r = thompson_construct_sequence(nfa, first, second);
            proof {
                assert forall|w: Seq<int>| #[trigger] matches_word(rx, w) implies nfa.reads(r.0.index(), w, r.1.index()) by {
                    let i = choose|i: int| 0 <= i <= w.len() && matches_word(first, w.take(i)) && matches_word(second, w.skip(i));
                    assert(w.take(i) + w.skip(i) =~= w);
                    assert(nfa.reads(r.0.index(), w.take(i) + w.skip(i), r.1.index()));
                }
                assert forall|w: Seq<int>| #[trigger] nfa.reads(r.0.index(), w, r.1.index()) implies matches_word(rx, w) by {
                    let i = choose|i: int| 0 <= i <= w.len() && matches_word(first, w.take(i)) && matches_word(second, w.skip(i));
                }
            }
            r
        },
        Node::Quantified { subnode, quantifier } => {
            let r = thompson_construct_quantified(nfa, subnode, *quantifier);
            proof {
                assert forall|w: Seq<int>| #[trigger] matches_word(rx, w) implies nfa.reads(r.0.index(), w, r.1.index()) by {
                    let k = choose|k: nat| quantifier_allows(*quantifier, k) && matches_repeated(subnode, w, k);
                    assert(matches_repeated(subnode, w, k));
                }
                assert forall|w: Seq<int>| #[trigger] nfa.reads(r.0.index(), w, r.1.index()) implies matches_word(rx, w) by {
                    let k = choose|k: nat| quantifier_allows(*quantifier, k) && #[trigger] matches_repeated(subnode, w, k);
                }
            }
            r
        },
        Node::Grouping { negated, elements } => {
            let r = thompson_construct_grouping(nfa, *negated, elements);
            proof {
                assert forall|w: Seq<int>| #[trigger] matches_word(rx, w) implies nfa.reads(r.0.index(), w, r.1.index()) by {
                    assert(w =~= seq![w[0]]);
                    assert(nfa.reads(r.0.index(), seq![w[0]], r.1.index()));
                }
            }
            r
        },
        Node::Literal(ch) => {
            let r = thompson_construct_literal(nfa, *ch);
            proof {
                assert forall|w: Seq<int>| #[trigger] matches_word(rx, w) implies nfa.reads(r.0.index(), w, r.1.index()) by {
                }
            }
            r
        },
    }
}

fn thompson_construct_alternative<AV>(nfa: &mut Automaton<char, AV>, left: &Node, right: &Node) -> (r: (State, State))
    requires
        old(nfa).inv(),
        repetitions_ordered(left),
        repetitions_ordered(right),
        old(nfa).counter() + 2 + thompson_size(left) + thompson_size(right) <= usize::MAX,
    ensures
        final(nfa).extends(old(nfa), 2 + thompson_size(left) + thompson_size(right)),
        final(nfa).is_new_state(old(nfa), r.0),
        final(nfa).is_new_state(old(nfa), r.1),
        forall|w: Seq<int>|
            #![trigger matches_word(left, w)]
            #![trigger matches_word(right, w)]
            matches_word(left, w) || matches_word(right, w) ==> final(nfa).reads(r.0.index(), w, r.1.index()),
        closed_region(final(nfa), old(nfa).counter(), final(nfa).counter()),
        forall|w: Seq<int>| #[trigger] final(nfa).reads(r.0.index(), w, r.1.index()) ==> matches_word(left, w) || matches_word(right, w),
    decreases vstd::math::max(node_height(left) as int, node_height(right) as int) as nat, 2nat,
{
    proof {
        lemma_thompson_size_pos(left);
        lemma_thompson_size_pos(right);
    }
    let ghost a0 = *nfa;
    proof {
        a0.lemma_unused_state_empty((a0.counter() + 1) as nat);
        a0.lemma_unused_state_empty((a0.counter() + 2) as nat);
    }
    let start = nfa.unique_state();
    let end = nfa.unique_state();
    let ghost a1 = *nfa;
    let (l_s, l_e) = thompson_construct(nfa, left);
    let ghost a2 = *nfa;
    let (r_s, r_e) = thompson_construct(nfa, right);
    let ghost a3 = *nfa;
    proof {
        lemma_extends_trans(&a0, &a1, &a2, 2, thompson_size(left));
        lemma_extends_trans(&a0, &a2, &a3, 2 + thompson_size(left), thompson_size(right));
    }
    nfa.add_epsilon_transition(start, l_s);
    let ghost b1 = *nfa;
    nfa.add_epsilon_transition(start, r_s);
    let ghost b2 = *nfa;
    nfa.add_epsilon_transition(l_e, end);
    let ghost b3 = *nfa;
    nfa.add_epsilon_transition(r_e, end);
    proof {
        lemma_below_extends(&a2, &a3, thompson_size(right));
        lemma_below_eps_added(&a3, &b1, start.index(), l_s);
        lemma_below_eps_added(&b1, &b2, start.index(), r_s);
        lemma_below_eps_added(&b2, &b3, l_e.index(), end);
        lemma_below_eps_added(&b3, nfa, r_e.index(), end);
        lemma_below_trans(&b2, &b3, nfa);
        lemma_below_trans(&b1, &b2, nfa);
        lemma_below_trans(&a3, &b1, nfa);
        lemma_below_trans(&a2, &a3, nfa);
        assert(nfa.eps_step(start.index(), l_s.index()));
        assert(nfa.eps_step(start.index(), r_s.index()));
        assert(nfa.eps_step(l_e.index(), end.index()));
        assert forall|w: Seq<int>|
            #![trigger matches_word(left, w)]
            #![trigger matches_word(right, w)]
            matches_word(left, w) || matches_word(right, w) implies nfa.reads(start.index(), w, end.index()) by {
            let (s0, e0) = if matches_word(left, w) { (l_s, l_e) } else { (r_s, r_e) };
            if matches_word(left, w) {
                assert(a2.reads(l_s.index(), w, l_e.index()));
                lemma_reads_lift(&a2, nfa, l_s.index(), w, l_e.index());
            } else {
                assert(a3.reads(r_s.index(), w, r_e.index()));
                lemma_reads_lift(&a3, nfa, r_s.index(), w, r_e.index());
            }
            lemma_reads_eps(nfa, start.index(), s0.index());
            lemma_reads_eps(nfa, e0.index(), end.index());
            lemma_reads_concat(nfa, start.index(), Seq::<int>::empty(), s0.index(), w, e0.index());
            assert(Seq::<int>::empty() + w =~= w);
            lemma_reads_concat(nfa, start.index(), w, e0.index(), Seq::<int>::empty(), end.index());
            assert(w + Seq::<int>::empty() =~= w);
        }
        let lo = a0.counter();
        let c1 = a1.counter();
        let c2 = a2.counter();
        let c3 = a3.counter();
        let p1 = set![(start.index(), l_s.index())];
        let p2 = set![(start.index(), r_s.index())];
        let p3 = set![(l_e.index(), end.index())];
        let p4 = set![(r_e.index(), end.index())];
        let added = p1.union(p2).union(p3).union(p4);
        lemma_grew_extends(&a1, &a2, thompson_size(left));
        lemma_grew_extends(&a2, &a3, thompson_size(right));
        lemma_grew_eps(&a3, &b1, start.index(), l_s);
        lemma_grew_eps(&b1, &b2, start.index(), r_s);
        lemma_grew_eps(&b2, &b3, l_e.index(), end);
        lemma_grew_eps(&b3, nfa, r_e.index(), end);
        lemma_grew_trans(&b2, &b3, nfa, p3, p4);
        lemma_grew_trans(&b1, &b2, nfa, p2, p3.union(p4));
        lemma_grew_trans(&a3, &b1, nfa, p1, p2.union(p3.union(p4)));
        assert(p1.union(p2.union(p3.union(p4))) =~= added);
        lemma_grew_trans(&a2, &a3, nfa, Set::empty(), added);
        assert(Set::<(nat, nat)>::empty().union(added) =~= added);
        lemma_grew_trans(&a1, &a2, nfa, Set::empty(), added);
        lemma_kept_from_grew(&a2, nfa, added, c1, c2, l_e.index());
        lemma_kept_from_grew(&a3, nfa, added, c2, c3, r_e.index());
        assert(c1 == lo + 2);
        assert forall|z: nat| !#[trigger] nfa.eps_step(end.index(), z) by {
            if nfa.eps_step(end.index(), z) {
                assert(a1.eps_step(end.index(), z) || added.contains((end.index(), z)));
                assert(a1.epsilon_from(end.index()).len() == 0);
            }
        }
        assert forall|p: int, t: State| !#[trigger] nfa.steps_to(end.index(), p, t) by {
            if nfa.steps_to(end.index(), p, t) {
                assert(a1.steps_to(end.index(), p, t));
                assert(a1.transitions_at(end.index()).len() == 0);
            }
        }
        assert forall|x: nat, z: nat| lo < x <= c3 && #[trigger] nfa.eps_step(x, z) implies lo < z <= c3 by {
            if x <= c1 {
                if !added.contains((x, z)) {
                    assert(a1.eps_step(x, z));
                    assert(a1.epsilon_from(x).len() == 0);
                }
            } else if x <= c2 {
                if !added.contains((x, z)) {
                    assert(a2.eps_step(x, z));
                }
            } else {
                if !added.contains((x, z)) {
                    assert(a3.eps_step(x, z));
                }
            }
        }
        assert forall|x: nat, p: int, t: State| lo < x <= c3 && #[trigger] nfa.steps_to(x, p, t) implies lo < t.index() <= c3 by {
            if x <= c1 {
                assert(a1.steps_to(x, p, t));
                assert(a1.transitions_at(x).len() == 0);
            } else if x <= c2 {
                assert(a2.steps_to(x, p, t));
            } else {
                assert(a3.steps_to(x, p, t));
            }
        }
        assert forall|w: Seq<int>| #[trigger] nfa.reads(start.index(), w, end.index()) implies matches_word(left, w) || matches_word(right, w) by {
            let n = choose|n: nat| nfa.run(start.index(), w, end.index(), n);
            assert(n > 0);
            if exists|t: State| nfa.steps_to(start.index(), w[0], t) && nfa.run(t.index(), w.drop_first(), end.index(), (n - 1) as nat) {
                let t = choose|t: State| nfa.steps_to(start.index(), w[0], t) && nfa.run(t.index(), w.drop_first(), end.index(), (n - 1) as nat);
                assert(a1.steps_to(start.index(), w[0], t));
                assert(a1.transitions_at(start.index()).len() == 0);
            }
            let z = choose|z: nat| nfa.eps_step(start.index(), z) && nfa.run(z, w, end.index(), (n - 1) as nat);
            assert(a1.epsilon_from(start.index()).len() == 0);
            assert(added.contains((start.index(), z)));
            assert forall|z2: nat| nfa.eps_step(l_e.index(), z2) && !(c1 < z2 <= c2) implies z2 == end.index() by {
                if !added.contains((l_e.index(), z2)) {
                    assert(a2.eps_step(l_e.index(), z2));
                }
            }
            assert forall|z2: nat| nfa.eps_step(r_e.index(), z2) && !(c2 < z2 <= c3) implies z2 == end.index() by {
                if !added.contains((r_e.index(), z2)) {
                    assert(a3.eps_step(r_e.index(), z2));
                }
            }
            if z == l_s.index() {
                lemma_branch_to_end(&a2, nfa, c1, c2, l_s.index(), l_e.index(), end.index(), w, (n - 1) as nat);
                assert(matches_word(left, w));
            } else {
                assert(z == r_s.index());
                lemma_branch_to_end(&a3, nfa, c2, c3, r_s.index(), r_e.index(), end.index(), w, (n - 1) as nat);
                assert(matches_word(right, w));
            }
        }
    }
    (start, end)
}

fn thompson_construct_sequence<AV>(nfa: &mut Automaton<char, AV>, left: &Node, right: &Node) -> (r: (State, State))
    requires
        old(nfa).inv(),
        repetitions_ordered(left),
        repetitions_ordered(right),
        old(nfa).counter() + thompson_size(left) + thompson_size(right) <= usize::MAX,
    ensures
        final(nfa).extends(old(nfa), thompson_size(left) + thompson_size(right)),
        final(nfa).is_new_state(old(nfa), r.0),
        final(nfa).is_new_state(old(nfa), r.1),
        forall|w1: Seq<int>, w2: Seq<int>|
            #![trigger final(nfa).reads(r.0.index(), w1 + w2, r.1.index())]
            matches_word(left, w1) && matches_word(right, w2) ==> final(nfa).reads(r.0.index(), w1 + w2, r.1.index()),
        closed_region(final(nfa), old(nfa).counter(), final(nfa).counter()),
        forall|w: Seq<int>| #[trigger] final(nfa).reads(r.0.index(), w, r.1.index())
            ==> exists|i: int| 0 <= i <= w.len() && matches_word(left, w.take(i)) && matches_word(right, w.skip(i)),
    decreases vstd::math::max(node_height(left) as int, node_height(right) as int) as nat, 2nat,
{
    proof {
        lemma_thompson_size_pos(left);
        lemma_thompson_size_pos(right);
    }
    let ghost a0 = *nfa;
    let (l_s, l_e) = thompson_construct(nfa, left);
    let ghost a1 = *nfa;
    let (r_s, r_e) = thompson_construct(nfa, right);
    let ghost a2 = *nfa;
    proof {
        lemma_extends_trans(&a0, &a1, &a2, thompson_size(left), thompson_size(right));
    }
    nfa.add_epsilon_transition(l_e, r_s);
    proof {
        lemma_below_extends(&a1, &a2, thompson_size(right));
        lemma_below_eps_added(&a2, nfa, l_e.index(), r_s);
        lemma_below_trans(&a1, &a2, nfa);
        assert forall|w1: Seq<int>, w2: Seq<int>|
            #![trigger nfa.reads(l_s.index(), w1 + w2, r_e.index())]
            matches_word(left, w1) && matches_word(right, w2) implies nfa.reads(l_s.index(), w1 + w2, r_e.index()) by {
            assert(a1.reads(l_s.index(), w1, l_e.index()));
            assert(a2.reads(r_s.index(), w2, r_e.index()));
            lemma_reads_lift(&a1, nfa, l_s.index(), w1, l_e.index());
            lemma_reads_lift(&a2, nfa, r_s.index(), w2, r_e.index());
            lemma_reads_eps(nfa, l_e.index(), r_s.index());
            lemma_reads_concat(nfa, l_s.index(), w1, l_e.index(), Seq::<int>::empty(), r_s.index());
            assert(w1 + Seq::<int>::empty() =~= w1);
            lemma_reads_concat(nfa, l_s.index(), w1, r_s.index(), w2, r_e.index());
        }
        let lo = a0.counter();
        let c1 = a1.counter();
        let c2 = a2.counter();
        let added = set![(l_e.index(), r_s.index())];
        lemma_grew_extends(&a1, &a2, thompson_size(right));
        lemma_grew_eps(&a2, nfa, l_e.index(), r_s);
        lemma_grew_trans(&a1, &a2, nfa, Set::empty(), added);
        assert(Set::<(nat, nat)>::empty().union(added) =~= added);
        lemma_kept_from_grew(&a1, nfa, added, lo, c1, l_e.index());
        lemma_kept_from_grew(&a2, nfa, added, c1, c2, r_e.index());
        assert forall|x: nat, z: nat| lo < x <= c2 && #[trigger] nfa.eps_step(x, z) implies lo < z <= c2 by {
            if x <= c1 {
                if !added.contains((x, z)) {
                    assert(a1.eps_step(x, z));
                }
            } else {
                assert(a2.eps_step(x, z));
            }
        }
        assert forall|x: nat, p: int, t: State| lo < x <= c2 && #[trigger] nfa.steps_to(x, p, t) implies lo < t.index() <= c2 by {
            if x <= c1 {
                assert(a1.steps_to(x, p, t));
            } else {
                assert(a2.steps_to(x, p, t));
            }
        }
        assert forall|w: Seq<int>| #[trigger] nfa.reads(l_s.index(), w, r_e.index())
            implies exists|i: int| 0 <= i <= w.len() && matches_word(left, w.take(i)) && matches_word(right, w.skip(i)) by {
            let n = choose|n: nat| nfa.run(l_s.index(), w, r_e.index(), n);
            lemma_exit(&a1, nfa, lo, c1, l_e.index(), l_s.index(), w, r_e.index(), n);
            let (i, z, m) = choose|i: int, z: nat, m: nat|
                #![trigger nfa.run(z, w.skip(i), r_e.index(), m)]
                0 <= i <= w.len() && m < n && a1.reads(l_s.index(), w.take(i), l_e.index()) && nfa.eps_step(l_e.index(), z)
                    && !(lo < z <= c1) && nfa.run(z, w.skip(i), r_e.index(), m);
            if !added.contains((l_e.index(), z)) {
                assert(a1.eps_step(l_e.index(), z));
            }
            assert(z == r_s.index());
            lemma_exit(&a2, nfa, c1, c2, r_e.index(), r_s.index(), w.skip(i), r_e.index(), m);
            if exists|i2: int, z2: nat, m2: nat|
                #![trigger nfa.run(z2, w.skip(i).skip(i2), r_e.index(), m2)]
                0 <= i2 <= w.skip(i).len() && m2 < m && a2.reads(r_s.index(), w.skip(i).take(i2), r_e.index()) && nfa.eps_step(r_e.index(), z2)
                    && !(c1 < z2 <= c2) && nfa.run(z2, w.skip(i).skip(i2), r_e.index(), m2) {
                let (i2, z2, m2) = choose|i2: int, z2: nat, m2: nat|
                    #![trigger nfa.run(z2, w.skip(i).skip(i2), r_e.index(), m2)]
                    0 <= i2 <= w.skip(i).len() && m2 < m && a2.reads(r_s.index(), w.skip(i).take(i2), r_e.index()) && nfa.eps_step(r_e.index(), z2)
                        && !(c1 < z2 <= c2) && nfa.run(z2, w.skip(i).skip(i2), r_e.index(), m2);
                assert(a2.eps_step(r_e.index(), z2));
                assert(false);
            }
            assert(a2.reads(r_s.index(), w.skip(i), r_e.index()));
            assert(matches_word(right, w.skip(i)));
            assert(matches_word(left, w.take(i)));
        }
    }
    (l_s, r_e)
}

/// Adds the fragment of `count` copies of `node` one after the other,
/// behind a new start state.
fn thompson_construct_repeat<AV>(nfa: &mut Automaton<char, AV>, node: &Node, count: usize) -> (r: (State, State))
    requires
        old(nfa).inv(),
        repetitions_ordered(node),
        old(nfa).counter() + 1 + count * thompson_size(node) <= usize::MAX,
    ensures
        final(nfa).extends(old(nfa), 1 + count * thompson_size(node)),
        final(nfa).is_new_state(old(nfa), r.0),
        final(nfa).is_new_state(old(nfa), r.1),
        forall|w: Seq<int>| #[trigger] matches_repeated(node, w, count as nat) ==> final(nfa).reads(r.0.index(), w, r.1.index()),
        closed_region(final(nfa), old(nfa).counter(), final(nfa).counter()),
        forall|w: Seq<int>| #[trigger] final(nfa).reads(r.0.index(), w, r.1.index()) ==> matches_repeated(node, w, count as nat),
        count == 0 ==> r.1 == r.0 && (forall|z: nat| !#[trigger] final(nfa).eps_step(r.0.index(), z))
            && (forall|p: int, t: State| !#[trigger] final(nfa).steps_to(r.0.index(), p, t)),
        count > 0 ==> forall|u: Seq<int>, v: Seq<int>|
            #![trigger matches_word(node, u), final(nfa).reads(r.1.index(), v, r.1.index())]
            matches_word(node, u) && final(nfa).reads(r.1.index(), v, r.1.index()) ==> matches_word(node, u + v),
    decreases node_height(node), 2nat,
{
    let ghost a0 = *nfa;
    proof {
        a0.lemma_unused_state_empty((a0.counter() + 1) as nat);
    }
    let ghost size = thompson_size(node);
    proof {
        lemma_thompson_size_pos(node);
        assert(count * size >= 0) by (nonlinear_arith)
            requires size >= 1;
    }
    let start = nfa.unique_state();
    let mut last = start;
    let mut i: usize = 0;
    proof {
        assert(0 * size == 0) by (nonlinear_arith);
        assert forall|w: Seq<int>| #[trigger] matches_repeated(node, w, 0) implies nfa.reads(start.index(), w, last.index()) by {
            assert(w =~= Seq::<int>::empty());
            lemma_reads_here(nfa, start.index());
        }
        assert(nfa.epsilon_from(start.index()).len() == 0);
        assert(nfa.transitions_at(start.index()).len() == 0);
        assert forall|w: Seq<int>| #[trigger] nfa.reads(start.index(), w, last.index()) implies matches_repeated(node, w, 0) by {
            let n = choose|n: nat| nfa.run(start.index(), w, last.index(), n);
            lemma_stuck(nfa, start.index(), w, last.index(), n);
        }
    }
    while i < count
        invariant
            i <= count,
            repetitions_ordered(node),
            size == thompson_size(node),
            a0.counter() + 1 + count * size <= usize::MAX,
            size >= 1,
            nfa.extends(&a0, 1 + i * size),
            nfa.is_new_state(&a0, start),
            nfa.is_new_state(&a0, last),
            forall|w: Seq<int>| #[trigger] matches_repeated(node, w, i as nat) ==> nfa.reads(start.index(), w, last.index()),
            closed_region(nfa, a0.counter(), nfa.counter()),
            forall|w: Seq<int>| #[trigger] nfa.reads(start.index(), w, last.index()) ==> matches_repeated(node, w, i as nat),
            i == 0 ==> last == start && nfa.epsilon_from(start.index()).len() == 0 && nfa.transitions_at(start.index()).len() == 0,
            i > 0 ==> forall|u: Seq<int>, v: Seq<int>|
                #![trigger matches_word(node, u), nfa.reads(last.index(), v, last.index())]
                matches_word(node, u) && nfa.reads(last.index(), v, last.index()) ==> matches_word(node, u + v),
        decreases count - i,
    {
        proof {
            assert((i + 1) * size == i * size + size) by (nonlinear_arith);
            assert((i + 1) * size <= count * size) by (nonlinear_arith)
                requires i + 1 <= count, size >= 1;
        }
        let ghost b0 = *nfa;
        let ghost prev = last;
        let (s, e) = thompson_construct(nfa, node);
        let ghost b1 = *nfa;
        proof {
            lemma_extends_trans(&a0, &b0, &b1, 1 + i * size, size);
        }
        nfa.add_epsilon_transition(last, s);
        last = e;
        i = i + 1;
        proof {
            lemma_chain_step(&b0, &b1, nfa, a0.counter(), start.index(), prev.index(), s, e.index(), node, (i - 1) as nat, i as nat);
        }
    }
    (start, last)
}

/// One more copy of `node` behind the chain ending at `prev`, linked by an
/// epsilon transition from `prev` to its start `s`: the longer chain is
/// closed, reads only one word more, and a word of `node` followed by what
/// the new end reads back to itself is a word of `node`.
proof fn lemma_chain_step<AV>(
    b0: &Automaton<char, AV>,
    b1: &Automaton<char, AV>,
    nfa: &Automaton<char, AV>,
    lo: nat,
    start: nat,
    prev: nat,
    s: State,
    e: nat,
    node: &Node,
    k: nat,
    k1: nat,
)
    requires
        k1 == k + 1,
        b0.inv(),
        b1.extends(b0, thompson_size(node)),
        thompson_size(node) >= 0,
        lo < start <= b0.counter(),
        lo < prev <= b0.counter(),
        b0.counter() < s.index() <= b1.counter(),
        b0.counter() < e <= b1.counter(),
        closed_region(b0, lo, b0.counter()),
        forall|w: Seq<int>| #[trigger] b0.reads(start, w, prev) ==> matches_repeated(node, w, k),
        forall|w: Seq<int>| #[trigger] matches_repeated(node, w, k) ==> b0.reads(start, w, prev),
        closed_region(b1, b0.counter(), b1.counter()),
        forall|w: Seq<int>| #[trigger] matches_word(node, w) ==> b1.reads(s.index(), w, e),
        forall|w: Seq<int>| #[trigger] b1.reads(s.index(), w, e) ==> matches_word(node, w),
        nfa.counter() == b1.counter(),
        forall|x: nat| nfa.transitions_at(x) == b1.transitions_at(x),
        forall|x: nat| x != prev ==> nfa.epsilon_from(x) == b1.epsilon_from(x),
        nfa.epsilon_from(prev) == (if b1.epsilon_from(prev).contains(s) {
            b1.epsilon_from(prev)
        } else {
            b1.epsilon_from(prev).push(s)
        }),
    ensures
        closed_region(nfa, lo, nfa.counter()),
        forall|w: Seq<int>| #[trigger] matches_repeated(node, w, k1) ==> nfa.reads(start, w, e),
        forall|w: Seq<int>| #[trigger] nfa.reads(start, w, e) ==> matches_repeated(node, w, k1),
        forall|u: Seq<int>, v: Seq<int>|
            #![trigger matches_word(node, u), nfa.reads(e, v, e)]
            matches_word(node, u) && nfa.reads(e, v, e) ==> matches_word(node, u + v),
{
    let cb = b0.counter();
    let cc = b1.counter();
    lemma_below_extends(b0, b1, thompson_size(node));
    lemma_below_eps_added(b1, nfa, prev, s);
    lemma_below_trans(b0, b1, nfa);
    assert forall|w: Seq<int>| #[trigger] matches_repeated(node, w, k1) implies nfa.reads(start, w, e) by {
        let j = choose|j: int| 0 <= j <= w.len() && matches_repeated(node, w.take(j), k) && matches_word(node, w.skip(j));
        assert(b0.reads(start, w.take(j), prev));
        assert(b1.reads(s.index(), w.skip(j), e));
        lemma_reads_lift(b0, nfa, start, w.take(j), prev);
        lemma_reads_lift(b1, nfa, s.index(), w.skip(j), e);
        lemma_reads_eps(nfa, prev, s.index());
        lemma_reads_concat(nfa, start, w.take(j), prev, Seq::<int>::empty(), s.index());
        assert(w.take(j) + Seq::<int>::empty() =~= w.take(j));
        lemma_reads_concat(nfa, start, w.take(j), s.index(), w.skip(j), e);
        assert(w.take(j) + w.skip(j) =~= w);
    }
    let added = set![(prev, s.index())];
    lemma_grew_extends(b0, b1, thompson_size(node));
    lemma_grew_eps(b1, nfa, prev, s);
    lemma_grew_trans(b0, b1, nfa, Set::empty(), added);
    assert(Set::<(nat, nat)>::empty().union(added) =~= added);
    lemma_kept_from_grew(b0, nfa, added, lo, cb, prev);
    lemma_kept_from_grew(b1, nfa, added, cb, cc, e);
    assert forall|x: nat, z: nat| lo < x <= cc && #[trigger] nfa.eps_step(x, z) implies lo < z <= cc by {
        if x <= cb {
            if !added.contains((x, z)) {
                assert(b0.eps_step(x, z));
            }
        } else {
            assert(b1.eps_step(x, z));
        }
    }
    assert forall|x: nat, p: int, t: State| lo < x <= cc && #[trigger] nfa.steps_to(x, p, t) implies lo < t.index() <= cc by {
        if x <= cb {
            assert(b0.steps_to(x, p, t));
        } else {
            assert(b1.steps_to(x, p, t));
        }
    }
    // Runs from inside the new copy to its end stay in it.
    assert forall|x: nat, v: Seq<int>| cb < x <= cc && #[trigger] nfa.reads(x, v, e) implies b1.reads(x, v, e) by {
        let n = choose|n: nat| nfa.run(x, v, e, n);
        lemma_exit(b1, nfa, cb, cc, e, x, v, e, n);
        if !b1.run(x, v, e, n) {
            let (i2, z2, m2) = choose|i2: int, z2: nat, m2: nat|
                #![trigger nfa.run(z2, v.skip(i2), e, m2)]
                0 <= i2 <= v.len() && m2 < n && b1.reads(x, v.take(i2), e) && nfa.eps_step(e, z2)
                    && !(cb < z2 <= cc) && nfa.run(z2, v.skip(i2), e, m2);
            assert(b1.eps_step(e, z2));
        }
    }
    assert forall|w: Seq<int>| #[trigger] nfa.reads(start, w, e) implies matches_repeated(node, w, k1) by {
        let n = choose|n: nat| nfa.run(start, w, e, n);
        lemma_exit(b0, nfa, lo, cb, prev, start, w, e, n);
        let (j, z, m) = choose|j: int, z: nat, m: nat|
            #![trigger nfa.run(z, w.skip(j), e, m)]
            0 <= j <= w.len() && m < n && b0.reads(start, w.take(j), prev) && nfa.eps_step(prev, z)
                && !(lo < z <= cb) && nfa.run(z, w.skip(j), e, m);
        if !added.contains((prev, z)) {
            assert(b0.eps_step(prev, z));
        }
        assert(z == s.index());
        assert(nfa.reads(s.index(), w.skip(j), e));
        assert(b1.reads(s.index(), w.skip(j), e));
        assert(matches_word(node, w.skip(j)));
        assert(matches_repeated(node, w.take(j), k));
    }
    assert forall|u: Seq<int>, v: Seq<int>|
        #![trigger matches_word(node, u), nfa.reads(e, v, e)]
        matches_word(node, u) && nfa.reads(e, v, e) implies matches_word(node, u + v) by {
        assert(b1.reads(e, v, e));
        assert(b1.reads(s.index(), u, e));
        lemma_reads_concat(b1, s.index(), u, e, v, e);
    }
}

/// The shape of the fragment of at least `count` repetitions of `sub`: a
/// chain of `count` copies from `start` to `end` in `(lo, c1]`, as `a1`
/// had it, and a loop copy from `ls` to `le` in `(c1, c2]`, as `a2` had it,
/// joined by the epsilon transitions from `end` to `ls` and from `le` back
/// to `end`.
#[verifier::opaque]
spec fn loop_setup<AV>(
    a1: &Automaton<char, AV>,
    a2: &Automaton<char, AV>,
    nfa: &Automaton<char, AV>,
    lo: nat,
    c1: nat,
    c2: nat,
    start: nat,
    end: nat,
    ls: nat,
    le: nat,
    sub: &Node,
    count: nat,
) -> bool {
    &&& closed_region(a1, lo, c1)
    &&& closed_region(a2, c1, c2)
    &&& kept(a1, nfa, lo, c1, end)
    &&& kept(a2, nfa, c1, c2, le)
    &&& lo < start <= c1 && lo < end <= c1 && c1 < ls <= c2 && c1 < le <= c2
    &&& forall|z: nat| #[trigger] nfa.eps_step(end, z) && !(lo < z <= c1) ==> z == ls
    &&& forall|z: nat| #[trigger] nfa.eps_step(le, z) && !(c1 < z <= c2) ==> z == end
    &&& forall|w: Seq<int>| #[trigger] a1.reads(start, w, end) ==> matches_repeated(sub, w, count)
    &&& forall|w: Seq<int>| #[trigger] a2.reads(ls, w, le) ==> matches_word(sub, w)
    &&& count == 0 ==> end == start && (forall|z: nat| !#[trigger] a1.eps_step(start, z))
        && (forall|p: int, t: State| !#[trigger] a1.steps_to(start, p, t))
    &&& count > 0 ==> forall|u: Seq<int>, v: Seq<int>|
        #![trigger matches_word(sub, u), a1.reads(end, v, end)]
        matches_word(sub, u) && a1.reads(end, v, end) ==> matches_word(sub, u + v)
}

/// What was read before standing at `end` again: the chain alone, or at
/// least `count` repetitions and then one word of `sub`.
#[verifier::opaque]
spec fn loop_prefix<AV>(a1: &Automaton<char, AV>, start: nat, end: nat, sub: &Node, count: nat, p: Seq<int>) -> bool {
    ||| a1.reads(start, p, end)
    ||| exists|i: int, k: nat|
        0 <= i <= p.len() && k >= count && #[trigger] matches_repeated(sub, p.take(i), k) && matches_word(sub, p.skip(i))
}

/// Going round `end` inside the chain after a prefix keeps at least
/// `count` repetitions.
proof fn lemma_loop_absorb<AV>(
    a1: &Automaton<char, AV>,
    a2: &Automaton<char, AV>,
    nfa: &Automaton<char, AV>,
    lo: nat,
    c1: nat,
    c2: nat,
    start: nat,
    end: nat,
    ls: nat,
    le: nat,
    sub: &Node,
    count: nat,
    p: Seq<int>,
    c: Seq<int>,
)
    requires
        loop_setup(a1, a2, nfa, lo, c1, c2, start, end, ls, le, sub, count),
        loop_prefix(a1, start, end, sub, count, p),
        a1.reads(end, c, end),
    ensures
        exists|k: nat| k >= count && #[trigger] matches_repeated(sub, p + c, k),
{
    reveal(loop_setup);
    reveal(loop_prefix);
    if a1.reads(start, p, end) {
        lemma_reads_concat(a1, start, p, end, c, end);
        assert(matches_repeated(sub, p + c, count));
    } else {
        let (i, k) = choose|i: int, k: nat|
            0 <= i <= p.len() && k >= count && #[trigger] matches_repeated(sub, p.take(i), k) && matches_word(sub, p.skip(i));
        let q = p.take(i);
        let u = p.skip(i);
        if count > 0 {
            assert(matches_word(sub, u + c));
        } else {
            let n = choose|n: nat| a1.run(end, c, end, n);
            lemma_stuck(a1, end, c, end, n);
            assert(u + c =~= u);
        }
        let pc = p + c;
        assert(pc.take(i) =~= q);
        assert(pc.skip(i) =~= u + c);
        assert(matches_repeated(sub, pc.take(i), k) && matches_word(sub, pc.skip(i)));
        assert(matches_repeated(sub, pc, k + 1));
    }
}

/// A run from `end` back to `end` either stays in the chain or leaves it
/// for the loop copy once it has gone round `end` in the chain.
proof fn lemma_leave_chain<AV>(
    a1: &Automaton<char, AV>,
    a2: &Automaton<char, AV>,
    nfa: &Automaton<char, AV>,
    lo: nat,
    c1: nat,
    c2: nat,
    start: nat,
    end: nat,
    ls: nat,
    le: nat,
    sub: &Node,
    count: nat,
    v: Seq<int>,
    m: nat,
) -> (r: (int, nat))
    requires
        loop_setup(a1, a2, nfa, lo, c1, c2, start, end, ls, le, sub, count),
        nfa.run(end, v, end, m),
    ensures
        a1.reads(end, v, end) || (0 <= r.0 <= v.len() && r.1 < m && a1.reads(end, v.take(r.0), end) && nfa.run(ls, v.skip(r.0), end, r.1)),
{
    assert(closed_region(a1, lo, c1) && kept(a1, nfa, lo, c1, end) && lo < end <= c1) by {
        reveal(loop_setup);
    }
    lemma_exit(a1, nfa, lo, c1, end, end, v, end, m);
    if a1.run(end, v, end, m) {
        assert(a1.reads(end, v, end));
        (0, 0)
    } else {
        let (i, z, m1) = choose|i: int, z: nat, m1: nat|
            #![trigger nfa.run(z, v.skip(i), end, m1)]
            0 <= i <= v.len() && m1 < m && a1.reads(end, v.take(i), end) && nfa.eps_step(end, z) && !(lo < z <= c1) && nfa.run(z, v.skip(i), end, m1);
        assert(z == ls) by {
            reveal(loop_setup);
        }
        (i, m1)
    }
}

/// A run from the loop copy to `end` reads a word of `sub` and comes back
/// to `end` on the way.
proof fn lemma_leave_loop<AV>(
    a1: &Automaton<char, AV>,
    a2: &Automaton<char, AV>,
    nfa: &Automaton<char, AV>,
    lo: nat,
    c1: nat,
    c2: nat,
    start: nat,
    end: nat,
    ls: nat,
    le: nat,
    sub: &Node,
    count: nat,
    u: Seq<int>,
    m: nat,
) -> (r: (int, nat))
    requires
        loop_setup(a1, a2, nfa, lo, c1, c2, start, end, ls, le, sub, count),
        nfa.run(ls, u, end, m),
    ensures
        0 <= r.0 <= u.len(),
        r.1 < m,
        matches_word(sub, u.take(r.0)),
        nfa.run(end, u.skip(r.0), end, r.1),
{
    assert(closed_region(a2, c1, c2) && kept(a2, nfa, c1, c2, le) && c1 < ls <= c2 && c1 < le <= c2 && !(c1 < end <= c2)) by {
        reveal(loop_setup);
    }
    lemma_exit(a2, nfa, c1, c2, le, ls, u, end, m);
    let (i2, z2, m2) = choose|i2: int, z2: nat, m2: nat|
        #![trigger nfa.run(z2, u.skip(i2), end, m2)]
        0 <= i2 <= u.len() && m2 < m && a2.reads(ls, u.take(i2), le) && nfa.eps_step(le, z2) && !(c1 < z2 <= c2) && nfa.run(z2, u.skip(i2), end, m2);
    assert(z2 == end && matches_word(sub, u.take(i2))) by {
        reveal(loop_setup);
    }
    (i2, m2)
}

/// Every run round `end` after a prefix reads at least `count`
/// repetitions in all.
proof fn lemma_loop_sound<AV>(
    a1: &Automaton<char, AV>,
    a2: &Automaton<char, AV>,
    nfa: &Automaton<char, AV>,
    lo: nat,
    c1: nat,
    c2: nat,
    start: nat,
    end: nat,
    ls: nat,
    le: nat,
    sub: &Node,
    count: nat,
    p: Seq<int>,
    v: Seq<int>,
    m: nat,
)
    requires
        loop_setup(a1, a2, nfa, lo, c1, c2, start, end, ls, le, sub, count),
        loop_prefix(a1, start, end, sub, count, p),
        nfa.run(end, v, end, m),
    ensures
        exists|k: nat| k >= count && #[trigger] matches_repeated(sub, p + v, k),
    decreases m,
{
    let (i, m1) = lemma_leave_chain(a1, a2, nfa, lo, c1, c2, start, end, ls, le, sub, count, v, m);
    if a1.reads(end, v, end) {
        lemma_loop_absorb(a1, a2, nfa, lo, c1, c2, start, end, ls, le, sub, count, p, v);
    } else {
        let v1 = v.take(i);
        let v2 = v.skip(i);
        let (i2, m2) = lemma_leave_loop(a1, a2, nfa, lo, c1, c2, start, end, ls, le, sub, count, v2, m1);
        let v3 = v2.take(i2);
        let v4 = v2.skip(i2);
        lemma_loop_absorb(a1, a2, nfa, lo, c1, c2, start, end, ls, le, sub, count, p, v1);
        let k = choose|k: nat| k >= count && #[trigger] matches_repeated(sub, p + v1, k);
        let p2 = p + v1 + v3;
        assert(loop_prefix(a1, start, end, sub, count, p2)) by {
            reveal(loop_prefix);
            assert(p2.take((p + v1).len() as int) =~= p + v1);
            assert(p2.skip((p + v1).len() as int) =~= v3);
            assert(matches_repeated(sub, p2.take((p + v1).len() as int), k));
        }
        lemma_loop_sound(a1, a2, nfa, lo, c1, c2, start, end, ls, le, sub, count, p2, v4, m2);
        assert(p2 + v4 =~= p + v) by {
            assert(v2 =~= v3 + v4);
            assert(v =~= v1 + v2);
        }
    }
}

/// The fragment of at least `count` repetitions reads only such words.
proof fn lemma_at_least_sound<AV>(
    a1: &Automaton<char, AV>,
    a2: &Automaton<char, AV>,
    nfa: &Automaton<char, AV>,
    lo: nat,
    c1: nat,
    c2: nat,
    start: nat,
    end: nat,
    ls: nat,
    le: nat,
    sub: &Node,
    count: nat,
    w: Seq<int>,
)
    requires
        loop_setup(a1, a2, nfa, lo, c1, c2, start, end, ls, le, sub, count),
        nfa.reads(start, w, end),
    ensures
        exists|k: nat| k >= count && #[trigger] matches_repeated(sub, w, k),
{
    let n = choose|n: nat| nfa.run(start, w, end, n);
    assert(closed_region(a1, lo, c1) && kept(a1, nfa, lo, c1, end) && lo < end <= c1 && lo < start <= c1) by {
        reveal(loop_setup);
    }
    lemma_exit(a1, nfa, lo, c1, end, start, w, end, n);
    if a1.run(start, w, end, n) {
        assert(a1.reads(start, w, end));
        assert(matches_repeated(sub, w, count)) by {
            reveal(loop_setup);
        }
    } else {
        let (i, z, m1) = choose|i: int, z: nat, m1: nat|
            #![trigger nfa.run(z, w.skip(i), end, m1)]
            0 <= i <= w.len() && m1 < n && a1.reads(start, w.take(i), end) && nfa.eps_step(end, z) && !(lo < z <= c1) && nfa.run(z, w.skip(i), end, m1);
        let w1 = w.take(i);
        let w2 = w.skip(i);
        assert(z == ls && closed_region(a2, c1, c2) && kept(a2, nfa, c1, c2, le) && c1 < ls <= c2 && c1 < le <= c2 && !(c1 < end <= c2)) by {
            reveal(loop_setup);
        }
        lemma_exit(a2, nfa, c1, c2, le, ls, w2, end, m1);
        let (i2, z2, m2) = choose|i2: int, z2: nat, m2: nat|
            #![trigger nfa.run(z2, w2.skip(i2), end, m2)]
            0 <= i2 <= w2.len() && m2 < m1 && a2.reads(ls, w2.take(i2), le) && nfa.eps_step(le, z2) && !(c1 < z2 <= c2) && nfa.run(z2, w2.skip(i2), end, m2);
        let w3 = w2.take(i2);
        let w4 = w2.skip(i2);
        assert(z2 == end && matches_word(sub, w3) && matches_repeated(sub, w1, count)) by {
            reveal(loop_setup);
        }
        let p = w1 + w3;
        assert(p.take(w1.len() as int) =~= w1);
        assert(p.skip(w1.len() as int) =~= w3);
        assert(loop_prefix(a1, start, end, sub, count, p)) by {
            reveal(loop_prefix);
            assert(matches_repeated(sub, p.take(w1.len() as int), count));
        }
        lemma_loop_sound(a1, a2, nfa, lo, c1, c2, start, end, ls, le, sub, count, p, w4, m2);
        assert(p + w4 =~= w) by {
            assert(w =~= w1 + w3 + w4);
        }
    }
}

/// The fragment of at least `count` repetitions, put together from the
/// chain of `count` copies (as `a1` had it) and the loop copy (as `a2` had
/// it) by the epsilon transitions from `end` to `ls` (giving `b1`) and from
/// `le` to `end` (giving `nfa`), is closed and reads only words of at least
/// `count` repetitions.
proof fn lemma_at_least_fragment<AV>(
    a1: &Automaton<char, AV>,
    a2: &Automaton<char, AV>,
    b1: &Automaton<char, AV>,
    nfa: &Automaton<char, AV>,
    lo: nat,
    start: nat,
    end: State,
    ls: State,
    le: State,
    sub: &Node,
    count: nat,
)
    requires
        a1.inv(),
        a2.extends(a1, thompson_size(sub)),
        thompson_size(sub) >= 0,
        lo < start <= a1.counter(),
        lo < end.index() <= a1.counter(),
        a1.counter() < ls.index() <= a2.counter(),
        a1.counter() < le.index() <= a2.counter(),
        closed_region(a1, lo, a1.counter()),
        closed_region(a2, a1.counter(), a2.counter()),
        forall|w: Seq<int>| #[trigger] a1.reads(start, w, end.index()) ==> matches_repeated(sub, w, count),
        forall|w: Seq<int>| #[trigger] a2.reads(ls.index(), w, le.index()) ==> matches_word(sub, w),
        count == 0 ==> end.index() == start && (forall|z: nat| !#[trigger] a1.eps_step(start, z))
            && (forall|p: int, t: State| !#[trigger] a1.steps_to(start, p, t)),
        count > 0 ==> forall|u: Seq<int>, v: Seq<int>|
            #![trigger matches_word(sub, u), a1.reads(end.index(), v, end.index())]
            matches_word(sub, u) && a1.reads(end.index(), v, end.index()) ==> matches_word(sub, u + v),
        b1.counter() == a2.counter(),
        forall|x: nat| b1.transitions_at(x) == a2.transitions_at(x),
        forall|x: nat| x != end.index() ==> b1.epsilon_from(x) == a2.epsilon_from(x),
        b1.epsilon_from(end.index()) == (if a2.epsilon_from(end.index()).contains(ls) {
            a2.epsilon_from(end.index())
        } else {
            a2.epsilon_from(end.index()).push(ls)
        }),
        nfa.counter() == b1.counter(),
        forall|x: nat| nfa.transitions_at(x) == b1.transitions_at(x),
        forall|x: nat| x != le.index() ==> nfa.epsilon_from(x) == b1.epsilon_from(x),
        nfa.epsilon_from(le.index()) == (if b1.epsilon_from(le.index()).contains(end) {
            b1.epsilon_from(le.index())
        } else {
            b1.epsilon_from(le.index()).push(end)
        }),
    ensures
        closed_region(nfa, lo, nfa.counter()),
        forall|w: Seq<int>| #[trigger] nfa.reads(start, w, end.index())
            ==> exists|k: nat| k >= count && #[trigger] matches_repeated(sub, w, k),
{
    let c1 = a1.counter();
    let c2 = a2.counter();
    let p1 = set![(end.index(), ls.index())];
    let p2 = set![(le.index(), end.index())];
    let added = p1.union(p2);
    lemma_grew_extends(a1, a2, thompson_size(sub));
    lemma_grew_eps(a2, b1, end.index(), ls);
    lemma_grew_eps(b1, nfa, le.index(), end);
    lemma_grew_trans(a2, b1, nfa, p1, p2);
    lemma_grew_trans(a1, a2, nfa, Set::empty(), added);
    assert(Set::<(nat, nat)>::empty().union(added) =~= added);
    lemma_kept_from_grew(a1, nfa, added, lo, c1, end.index());
    lemma_kept_from_grew(a2, nfa, added, c1, c2, le.index());
    assert forall|x: nat, z: nat| lo < x <= c2 && #[trigger] nfa.eps_step(x, z) implies lo < z <= c2 by {
        if !added.contains((x, z)) {
            if x <= c1 {
                assert(a1.eps_step(x, z));
            } else {
                assert(a2.eps_step(x, z));
            }
        }
    }
    assert forall|x: nat, p: int, t: State| lo < x <= c2 && #[trigger] nfa.steps_to(x, p, t) implies lo < t.index() <= c2 by {
        if x <= c1 {
            assert(a1.steps_to(x, p, t));
        } else {
            assert(a2.steps_to(x, p, t));
        }
    }
    assert forall|z: nat| #[trigger] nfa.eps_step(end.index(), z) && !(lo < z <= c1) implies z == ls.index() by {
        if !added.contains((end.index(), z)) {
            assert(a1.eps_step(end.index(), z));
        }
    }
    assert forall|z: nat| #[trigger] nfa.eps_step(le.index(), z) && !(c1 < z <= c2) implies z == end.index() by {
        if !added.contains((le.index(), z)) {
            assert(a2.eps_step(le.index(), z));
        }
    }
    assert(loop_setup(a1, a2, nfa, lo, c1, c2, start, end.index(), ls.index(), le.index(), sub, count)) by {
        reveal(loop_setup);
    }
    assert forall|w: Seq<int>| #[trigger] nfa.reads(start, w, end.index())
        implies exists|k: nat| k >= count && #[trigger] matches_repeated(sub, w, k) by {
        lemma_at_least_sound(a1, a2, nfa, lo, c1, c2, start, end.index(), ls.index(), le.index(), sub, count, w);
    }
}

/// A state without transitions.
spec fn no_way_out<T: Endpoint, AV>(a: &Automaton<T, AV>, x: nat) -> bool {
    &&& forall|z: nat| !#[trigger] a.eps_step(x, z)
    &&& forall|p: int, t: State| !#[trigger] a.steps_to(x, p, t)
}

/// The start of a bounded repetition: the chain of `least` copies from
/// `start` to `min` in `(lo, c1]`, then the new state `end` with an epsilon
/// transition from `min`. The fragment is closed, reads exactly `least`
/// words to `min` and to `end`, and `end` has no transition.
proof fn lemma_between_start<AV>(
    a_rep: &Automaton<char, AV>,
    a1: &Automaton<char, AV>,
    nfa: &Automaton<char, AV>,
    lo: nat,
    start: nat,
    min: nat,
    end: State,
    sub: &Node,
    least: nat,
)
    requires
        a_rep.inv(),
        lo < start <= a_rep.counter(),
        lo < min <= a_rep.counter(),
        end.index() == a_rep.counter() + 1,
        closed_region(a_rep, lo, a_rep.counter()),
        forall|w: Seq<int>| #[trigger] a_rep.reads(start, w, min) ==> matches_repeated(sub, w, least),
        a1.counter() == a_rep.counter() + 1,
        forall|x: nat| a1.epsilon_from(x) == a_rep.epsilon_from(x),
        forall|x: nat| a1.transitions_at(x) == a_rep.transitions_at(x),
        nfa.counter() == a1.counter(),
        forall|x: nat| nfa.transitions_at(x) == a1.transitions_at(x),
        forall|x: nat| x != min ==> nfa.epsilon_from(x) == a1.epsilon_from(x),
        nfa.epsilon_from(min) == (if a1.epsilon_from(min).contains(end) {
            a1.epsilon_from(min)
        } else {
            a1.epsilon_from(min).push(end)
        }),
    ensures
        closed_region(nfa, lo, nfa.counter()),
        forall|w: Seq<int>| #[trigger] nfa.reads(start, w, min) ==> matches_repeated(sub, w, least),
        forall|w: Seq<int>| #[trigger] nfa.reads(start, w, end.index())
            ==> exists|j: nat| least <= j <= least && #[trigger] matches_repeated(sub, w, j),
        no_way_out(nfa, end.index()),
{
    let c1 = a_rep.counter();
    let added = set![(min, end.index())];
    a_rep.lemma_unused_state_empty(end.index());
    lemma_grew_same(a_rep, a1);
    lemma_grew_eps(a1, nfa, min, end);
    lemma_grew_trans(a_rep, a1, nfa, Set::empty(), added);
    assert(Set::<(nat, nat)>::empty().union(added) =~= added);
    lemma_kept_from_grew(a_rep, nfa, added, lo, c1, min);
    assert forall|z: nat| !#[trigger] nfa.eps_step(end.index(), z) by {
        if nfa.eps_step(end.index(), z) {
            assert(a1.epsilon_from(end.index()).len() == 0);
        }
    }
    assert forall|p: int, t: State| !#[trigger] nfa.steps_to(end.index(), p, t) by {
        if nfa.steps_to(end.index(), p, t) {
            assert(a1.transitions_at(end.index()).len() == 0);
        }
    }
    assert forall|x: nat, z: nat| lo < x <= c1 + 1 && #[trigger] nfa.eps_step(x, z) implies lo < z <= c1 + 1 by {
        if x <= c1 && !added.contains((x, z)) {
            assert(a_rep.eps_step(x, z));
        }
    }
    assert forall|x: nat, p: int, t: State| lo < x <= c1 + 1 && #[trigger] nfa.steps_to(x, p, t) implies lo < t.index() <= c1 + 1 by {
        if x <= c1 {
            assert(a_rep.steps_to(x, p, t));
        }
    }
    assert forall|w: Seq<int>| #[trigger] nfa.reads(start, w, min) implies matches_repeated(sub, w, least) by {
        let n = choose|n: nat| nfa.run(start, w, min, n);
        lemma_exit(a_rep, nfa, lo, c1, min, start, w, min, n);
        if a_rep.run(start, w, min, n) {
            assert(a_rep.reads(start, w, min));
        } else {
            let (i, z, m) = choose|i: int, z: nat, m: nat|
                #![trigger nfa.run(z, w.skip(i), min, m)]
                0 <= i <= w.len() && m < n && a_rep.reads(start, w.take(i), min) && nfa.eps_step(min, z) && !(lo < z <= c1) && nfa.run(z, w.skip(i), min, m);
            if !added.contains((min, z)) {
                assert(a_rep.eps_step(min, z));
            }
            lemma_stuck(nfa, end.index(), w.skip(i), min, m);
        }
    }
    assert forall|w: Seq<int>| #[trigger] nfa.reads(start, w, end.index())
        implies exists|j: nat| least <= j <= least && #[trigger] matches_repeated(sub, w, j) by {
        let n = choose|n: nat| nfa.run(start, w, end.index(), n);
        lemma_exit(a_rep, nfa, lo, c1, min, start, w, end.index(), n);
        let (i, z, m) = choose|i: int, z: nat, m: nat|
            #![trigger nfa.run(z, w.skip(i), end.index(), m)]
            0 <= i <= w.len() && m < n && a_rep.reads(start, w.take(i), min) && nfa.eps_step(min, z) && !(lo < z <= c1) && nfa.run(z, w.skip(i), end.index(), m);
        if !added.contains((min, z)) {
            assert(a_rep.eps_step(min, z));
        }
        lemma_stuck(nfa, end.index(), w.skip(i), end.index(), m);
        assert(w.take(i) =~= w);
        assert(matches_repeated(sub, w, least));
    }
}

/// One more optional copy of `sub` in a bounded repetition, entered from the
/// previous end `prev` and left to `end`: the fragment stays closed, reads
/// one more word to the new end `e`, at most one more to `end`, and `end`
/// still has no transition.
proof fn lemma_between_step<AV>(
    b0: &Automaton<char, AV>,
    b1: &Automaton<char, AV>,
    b2: &Automaton<char, AV>,
    nfa: &Automaton<char, AV>,
    lo: nat,
    start: nat,
    prev: nat,
    s: State,
    e: State,
    end: State,
    sub: &Node,
    least: nat,
    k: nat,
    k1: nat,
)
    requires
        k1 == k + 1,
        least <= k,
        b0.inv(),
        b1.extends(b0, thompson_size(sub)),
        thompson_size(sub) >= 0,
        lo < start <= b0.counter(),
        lo < prev <= b0.counter(),
        lo < end.index() <= b0.counter(),
        end.index() != prev,
        b0.counter() < s.index() <= b1.counter(),
        b0.counter() < e.index() <= b1.counter(),
        closed_region(b0, lo, b0.counter()),
        forall|w: Seq<int>| #[trigger] b0.reads(start, w, prev) ==> matches_repeated(sub, w, k),
        forall|w: Seq<int>| #[trigger] b0.reads(start, w, end.index())
            ==> exists|j: nat| least <= j <= k && #[trigger] matches_repeated(sub, w, j),
        no_way_out(b0, end.index()),
        closed_region(b1, b0.counter(), b1.counter()),
        forall|w: Seq<int>| #[trigger] b1.reads(s.index(), w, e.index()) ==> matches_word(sub, w),
        b2.counter() == b1.counter(),
        forall|x: nat| b2.transitions_at(x) == b1.transitions_at(x),
        forall|x: nat| x != prev ==> b2.epsilon_from(x) == b1.epsilon_from(x),
        b2.epsilon_from(prev) == (if b1.epsilon_from(prev).contains(s) {
            b1.epsilon_from(prev)
        } else {
            b1.epsilon_from(prev).push(s)
        }),
        nfa.counter() == b2.counter(),
        forall|x: nat| nfa.transitions_at(x) == b2.transitions_at(x),
        forall|x: nat| x != e.index() ==> nfa.epsilon_from(x) == b2.epsilon_from(x),
        nfa.epsilon_from(e.index()) == (if b2.epsilon_from(e.index()).contains(end) {
            b2.epsilon_from(e.index())
        } else {
            b2.epsilon_from(e.index()).push(end)
        }),
    ensures
        closed_region(nfa, lo, nfa.counter()),
        forall|w: Seq<int>| #[trigger] nfa.reads(start, w, e.index()) ==> matches_repeated(sub, w, k1),
        forall|w: Seq<int>| #[trigger] nfa.reads(start, w, end.index())
            ==> exists|j: nat| least <= j <= k1 && #[trigger] matches_repeated(sub, w, j),
        no_way_out(nfa, end.index()),
{
    let cb = b0.counter();
    let cc = b1.counter();
    let p1 = set![(prev, s.index())];
    let p2 = set![(e.index(), end.index())];
    let added = p1.union(p2);
    lemma_grew_extends(b0, b1, thompson_size(sub));
    lemma_grew_eps(b1, b2, prev, s);
    lemma_grew_eps(b2, nfa, e.index(), end);
    lemma_grew_trans(b1, b2, nfa, p1, p2);
    lemma_grew_trans(b0, b1, nfa, Set::empty(), added);
    assert(Set::<(nat, nat)>::empty().union(added) =~= added);
    lemma_kept_from_grew(b0, nfa, added, lo, cb, prev);
    lemma_kept_from_grew(b1, nfa, added, cb, cc, e.index());
    assert forall|z: nat| !#[trigger] nfa.eps_step(end.index(), z) by {
        if nfa.eps_step(end.index(), z) && !added.contains((end.index(), z)) {
            assert(b0.eps_step(end.index(), z));
        }
    }
    assert forall|p: int, t: State| !#[trigger] nfa.steps_to(end.index(), p, t) by {
        if nfa.steps_to(end.index(), p, t) {
            assert(b0.steps_to(end.index(), p, t));
        }
    }
    assert forall|x: nat, z: nat| lo < x <= cc && #[trigger] nfa.eps_step(x, z) implies lo < z <= cc by {
        if !added.contains((x, z)) {
            if x <= cb {
                assert(b0.eps_step(x, z));
            } else {
                assert(b1.eps_step(x, z));
            }
        }
    }
    assert forall|x: nat, p: int, t: State| lo < x <= cc && #[trigger] nfa.steps_to(x, p, t) implies lo < t.index() <= cc by {
        if x <= cb {
            assert(b0.steps_to(x, p, t));
        } else {
            assert(b1.steps_to(x, p, t));
        }
    }
    // From the start of the new copy, the run goes to its end and then, if
    // further, to `end`.
    assert forall|u: Seq<int>, y: nat, m: nat|
        #![trigger nfa.run(s.index(), u, y, m)]
        nfa.run(s.index(), u, y, m) && (y == e.index() || y == end.index()) implies
        (y == e.index() && matches_word(sub, u)) || (y == end.index() && matches_word(sub, u)) by {
        lemma_exit(b1, nfa, cb, cc, e.index(), s.index(), u, y, m);
        if y == e.index() {
            if !b1.run(s.index(), u, y, m) {
                let (i2, z2, m2) = choose|i2: int, z2: nat, m2: nat|
                    #![trigger nfa.run(z2, u.skip(i2), y, m2)]
                    0 <= i2 <= u.len() && m2 < m && b1.reads(s.index(), u.take(i2), e.index()) && nfa.eps_step(e.index(), z2)
                        && !(cb < z2 <= cc) && nfa.run(z2, u.skip(i2), y, m2);
                if !added.contains((e.index(), z2)) {
                    assert(b1.eps_step(e.index(), z2));
                }
                lemma_stuck(nfa, end.index(), u.skip(i2), y, m2);
            } else {
                assert(b1.reads(s.index(), u, e.index()));
            }
        } else {
            let (i2, z2, m2) = choose|i2: int, z2: nat, m2: nat|
                #![trigger nfa.run(z2, u.skip(i2), y, m2)]
                0 <= i2 <= u.len() && m2 < m && b1.reads(s.index(), u.take(i2), e.index()) && nfa.eps_step(e.index(), z2)
                    && !(cb < z2 <= cc) && nfa.run(z2, u.skip(i2), y, m2);
            if !added.contains((e.index(), z2)) {
                assert(b1.eps_step(e.index(), z2));
            }
            lemma_stuck(nfa, end.index(), u.skip(i2), y, m2);
            assert(u.take(i2) =~= u);
        }
    }
    assert forall|w: Seq<int>, y: nat| #![trigger nfa.reads(start, w, y)]
        nfa.reads(start, w, y) && (y == e.index() || y == end.index()) implies
        (y == e.index() ==> matches_repeated(sub, w, k1))
        && (y == end.index() ==> exists|j: nat| least <= j <= k1 && #[trigger] matches_repeated(sub, w, j)) by {
        let n = choose|n: nat| nfa.run(start, w, y, n);
        lemma_exit(b0, nfa, lo, cb, prev, start, w, y, n);
        if lo < y <= cb && b0.run(start, w, y, n) {
            assert(y == end.index());
            assert(b0.reads(start, w, end.index()));
            let j = choose|j: nat| least <= j <= k && #[trigger] matches_repeated(sub, w, j);
            assert(least <= j <= k1 && matches_repeated(sub, w, j));
            assert(exists|j: nat| least <= j <= k1 && #[trigger] matches_repeated(sub, w, j));
        } else {
            let (i, z, m) = choose|i: int, z: nat, m: nat|
                #![trigger nfa.run(z, w.skip(i), y, m)]
                0 <= i <= w.len() && m < n && b0.reads(start, w.take(i), prev) && nfa.eps_step(prev, z) && !(lo < z <= cb) && nfa.run(z, w.skip(i), y, m);
            if !added.contains((prev, z)) {
                assert(b0.eps_step(prev, z));
            }
            assert(z == s.index());
            assert(nfa.run(s.index(), w.skip(i), y, m));
            assert(matches_word(sub, w.skip(i)));
            assert(matches_repeated(sub, w.take(i), k));
            assert(matches_repeated(sub, w, k1));
            assert(exists|j: nat| least <= j <= k1 && #[trigger] matches_repeated(sub, w, j));
        }
    }
}

/// Around a loop from `end` through a fragment of `sub` back to `end`, any
/// number of words of `sub` read from `end` to `end`.
proof fn lemma_loop_reads<AV>(a: &Automaton<char, AV>, sub: &Node, end: nat, ls: nat, le: nat, v: Seq<int>, j: nat)
    requires
        a.eps_step(end, ls),
        a.eps_step(le, end),
        forall|u: Seq<int>| #[trigger] matches_word(sub, u) ==> a.reads(ls, u, le),
        matches_repeated(sub, v, j),
    ensures
        a.reads(end, v, end),
    decreases j,
{
    if j == 0 {
        assert(v =~= Seq::<int>::empty());
        lemma_reads_here(a, end);
    } else {
        let i = choose|i: int| 0 <= i <= v.len() && matches_repeated(sub, v.take(i), (j - 1) as nat) && matches_word(sub, v.skip(i));
        lemma_loop_reads(a, sub, end, ls, le, v.take(i), (j - 1) as nat);
        assert(a.reads(ls, v.skip(i), le));
        lemma_reads_eps(a, end, ls);
        lemma_reads_eps(a, le, end);
        lemma_reads_concat(a, end, Seq::<int>::empty(), ls, v.skip(i), le);
        assert(Seq::<int>::empty() + v.skip(i) =~= v.skip(i));
        lemma_reads_concat(a, end, v.skip(i), le, Seq::<int>::empty(), end);
        assert(v.skip(i) + Seq::<int>::empty() =~= v.skip(i));
        lemma_reads_concat(a, end, v.take(i), end, v.skip(i), end);
        assert(v.take(i) + v.skip(i) =~= v);
    }
}

fn thompson_construct_quantified<AV>(nfa: &mut Automaton<char, AV>, subnode: &Node, quantifier: Quantifier) -> (r: (State, State))
    requires
        old(nfa).inv(),
        repetitions_ordered(subnode),
        quantifier matches Quantifier::Between(least, most) ==> least <= most,
        old(nfa).counter() + match quantifier {
            Quantifier::AtLeast(count) => 1 + (count + 1) * thompson_size(subnode),
            Quantifier::Between(least, most) => 2 + most * thompson_size(subnode),
        } <= usize::MAX,
    ensures
        final(nfa).extends(old(nfa), match quantifier {
            Quantifier::AtLeast(count) => 1 + (count + 1) * thompson_size(subnode),
            Quantifier::Between(least, most) => 2 + most * thompson_size(subnode),
        }),
        final(nfa).is_new_state(old(nfa), r.0),
        final(nfa).is_new_state(old(nfa), r.1),
        forall|w: Seq<int>, k: nat|
            quantifier_allows(quantifier, k) && #[trigger] matches_repeated(subnode, w, k) ==> final(nfa).reads(r.0.index(), w, r.1.index()),
        closed_region(final(nfa), old(nfa).counter(), final(nfa).counter()),
        forall|w: Seq<int>| #[trigger] final(nfa).reads(r.0.index(), w, r.1.index())
            ==> exists|k: nat| quantifier_allows(quantifier, k) && #[trigger] matches_repeated(subnode, w, k),
    decreases node_height(subnode), 3nat,
{
    let ghost a0 = *nfa;
    let ghost size = thompson_size(subnode);
    proof {
        lemma_thompson_size_pos(subnode);
    }
    match quantifier {
        Quantifier::AtLeast(count) => {
            proof {
                assert((count + 1) * size == count * size + size) by (nonlinear_arith);
                assert(count * size >= 0) by (nonlinear_arith)
                    requires size >= 1;
            }
            let (start, end) = thompson_construct_repeat(nfa, subnode, count);
            let ghost a1 = *nfa;
            // Allow looping on the last state
            let (ls, le) = thompson_construct(nfa, subnode);
            let ghost a2 = *nfa;
            proof {
                lemma_extends_trans(&a0, &a1, &a2, 1 + count * size, size);
            }
            nfa.add_epsilon_transition(end, ls);
            let ghost b1 = *nfa;
            nfa.add_epsilon_transition(le, end);
            proof {
                lemma_below_extends(&a1, &a2, size);
                lemma_below_eps_added(&a2, &b1, end.index(), ls);
                lemma_below_eps_added(&b1, nfa, le.index(), end);
                lemma_below_trans(&a2, &b1, nfa);
                lemma_below_trans(&a1, &a2, nfa);
                assert(nfa.eps_step(end.index(), ls.index()));
                assert forall|u: Seq<int>| #[trigger] matches_word(subnode, u) implies nfa.reads(ls.index(), u, le.index()) by {
                    lemma_reads_lift(&a2, nfa, ls.index(), u, le.index());
                }
                assert forall|w: Seq<int>, k: nat|
                    quantifier_allows(quantifier, k) && #[trigger] matches_repeated(subnode, w, k) implies nfa.reads(start.index(), w, end.index()) by {
                    lemma_rep_split(subnode, w, k, count as nat);
                    let i = choose|i: int| 0 <= i <= w.len() && #[trigger] matches_repeated(subnode, w.take(i), count as nat)
                        && matches_repeated(subnode, w.skip(i), (k - count) as nat);
                    assert(a1.reads(start.index(), w.take(i), end.index()));
                    lemma_reads_lift(&a1, nfa, start.index(), w.take(i), end.index());
                    lemma_loop_reads(nfa, subnode, end.index(), ls.index(), le.index(), w.skip(i), (k - count) as nat);
                    lemma_reads_concat(nfa, start.index(), w.take(i), end.index(), w.skip(i), end.index());
                    assert(w.take(i) + w.skip(i) =~= w);
                }
                lemma_at_least_fragment(&a1, &a2, &b1, nfa, a0.counter(), start.index(), end, ls, le, subnode, count as nat);
                assert forall|w: Seq<int>| #[trigger] nfa.reads(start.index(), w, end.index())
                    implies exists|k: nat| quantifier_allows(quantifier, k) && #[trigger] matches_repeated(subnode, w, k) by {
                    let k = choose|k: nat| k >= count && #[trigger] matches_repeated(subnode, w, k);
                    assert(quantifier_allows(quantifier, k));
                }
            }
            (start, end)
        },
        Quantifier::Between(least, most) => {
            proof {
                assert(least * size <= most * size) by (nonlinear_arith)
                    requires least <= most, size >= 1;
                assert(least * size >= 0) by (nonlinear_arith)
                    requires size >= 1;
            }
            let (start, min) = thompson_construct_repeat(nfa, subnode, least);
            let ghost a_rep = *nfa;
            let mut last = min;
            let end = nfa.unique_state();
            let ghost a1 = *nfa;
            proof {
                lemma_extends_trans(&a0, &a1, &a1, 2 + least * size, 0);
            }
            // From here we let every node skip to the end with an epsilon-transition
            nfa.add_epsilon_transition(last, end);
            proof {
                lemma_below_same(&a_rep, &a1);
                lemma_below_eps_added(&a1, nfa, min.index(), end);
                lemma_below_trans(&a_rep, &a1, nfa);
                assert forall|w: Seq<int>| #[trigger] matches_repeated(subnode, w, least as nat) implies nfa.reads(start.index(), w, min.index()) by {
                    lemma_reads_lift(&a_rep, nfa, start.index(), w, min.index());
                }
                assert forall|v: Seq<int>| #[trigger] matches_repeated(subnode, v, 0) implies nfa.reads(min.index(), v, last.index()) by {
                    assert(v =~= Seq::<int>::empty());
                    lemma_reads_here(nfa, min.index());
                }
                assert forall|v: Seq<int>, j: nat| j <= 0 && #[trigger] matches_repeated(subnode, v, j) implies nfa.reads(min.index(), v, end.index()) by {
                    assert(v =~= Seq::<int>::empty());
                    lemma_reads_eps(nfa, min.index(), end.index());
                }
                lemma_between_start(&a_rep, &a1, nfa, a0.counter(), start.index(), min.index(), end, subnode, least as nat);
            }
            let extra = most - least;
            let mut i: usize = 0;
            while i < extra
                invariant
                    i <= extra,
                    extra == most - least,
                    least <= most,
                    repetitions_ordered(subnode),
                    size == thompson_size(subnode),
                    size >= 1,
                    a0.counter() + 2 + most * size <= usize::MAX,
                    nfa.extends(&a0, 2 + (least + i) * size),
                    nfa.is_new_state(&a0, start),
                    nfa.is_new_state(&a0, last),
                    nfa.is_new_state(&a0, end),
                    forall|w: Seq<int>| #[trigger] matches_repeated(subnode, w, least as nat) ==> nfa.reads(start.index(), w, min.index()),
                    forall|v: Seq<int>| #[trigger] matches_repeated(subnode, v, i as nat) ==> nfa.reads(min.index(), v, last.index()),
                    forall|v: Seq<int>, j: nat| j <= i && #[trigger] matches_repeated(subnode, v, j) ==> nfa.reads(min.index(), v, end.index()),
                    closed_region(nfa, a0.counter(), nfa.counter()),
                    forall|w: Seq<int>| #[trigger] nfa.reads(start.index(), w, last.index()) ==> matches_repeated(subnode, w, (least + i) as nat),
                    forall|w: Seq<int>| #[trigger] nfa.reads(start.index(), w, end.index())
                        ==> exists|j: nat| least <= j <= least + i && #[trigger] matches_repeated(subnode, w, j),
                    no_way_out(nfa, end.index()),
                    last.index() != end.index(),
                decreases extra - i,
            {
                proof {
                    assert((least + i + 1) * size == (least + i) * size + size) by (nonlinear_arith);
                    assert((least + i + 1) * size <= most * size) by (nonlinear_arith)
                        requires least + i + 1 <= most, size >= 1;
                    assert((least + i) * size >= 0) by (nonlinear_arith)
                        requires size >= 1;
                }
                let ghost b0 = *nfa;
                let ghost prev = last;
                let (s, e) = thompson_construct(nfa, subnode);
                let ghost b1 = *nfa;
                proof {
                    lemma_extends_trans(&a0, &b0, &b1, 2 + (least + i) * size, size);
                }
                nfa.add_epsilon_transition(last, s);
                let ghost b2 = *nfa;
                last = e;
                nfa.add_epsilon_transition(last, end);
                i = i + 1;
                proof {
                    lemma_below_extends(&b0, &b1, size);
                    lemma_below_eps_added(&b1, &b2, prev.index(), s);
                    lemma_below_eps_added(&b2, nfa, e.index(), end);
                    lemma_below_trans(&b1, &b2, nfa);
                    lemma_below_trans(&b0, &b1, nfa);
                    assert(nfa.eps_step(prev.index(), s.index()));
                    assert forall|w: Seq<int>| #[trigger] matches_repeated(subnode, w, least as nat) implies nfa.reads(start.index(), w, min.index()) by {
                        lemma_reads_lift(&b0, nfa, start.index(), w, min.index());
                    }
                    assert forall|v: Seq<int>| #[trigger] matches_repeated(subnode, v, i as nat) implies nfa.reads(min.index(), v, last.index()) by {
                        let j = choose|j: int| 0 <= j <= v.len() && matches_repeated(subnode, v.take(j), (i - 1) as nat) && matches_word(subnode, v.skip(j));
                        assert(b0.reads(min.index(), v.take(j), prev.index()));
                        assert(b1.reads(s.index(), v.skip(j), e.index()));
                        lemma_reads_lift(&b0, nfa, min.index(), v.take(j), prev.index());
                        lemma_reads_lift(&b1, nfa, s.index(), v.skip(j), e.index());
                        lemma_reads_eps(nfa, prev.index(), s.index());
                        lemma_reads_concat(nfa, min.index(), v.take(j), prev.index(), Seq::<int>::empty(), s.index());
                        assert(v.take(j) + Seq::<int>::empty() =~= v.take(j));
                        lemma_reads_concat(nfa, min.index(), v.take(j), s.index(), v.skip(j), e.index());
                        assert(v.take(j) + v.skip(j) =~= v);
                    }
                    assert forall|v: Seq<int>, j: nat| j <= i && #[trigger] matches_repeated(subnode, v, j) implies nfa.reads(min.index(), v, end.index()) by {
                        if j < i {
                            assert(b0.reads(min.index(), v, end.index()));
                            lemma_reads_lift(&b0, nfa, min.index(), v, end.index());
                        } else {
                            assert(nfa.reads(min.index(), v, e.index()));
                            lemma_reads_eps(nfa, e.index(), end.index());
                            lemma_reads_concat(nfa, min.index(), v, e.index(), Seq::<int>::empty(), end.index());
                            assert(v + Seq::<int>::empty() =~= v);
                        }
                    }
                    lemma_between_step(&b0, &b1, &b2, nfa, a0.counter(), start.index(), prev.index(), s, e, end, subnode, least as nat, (least + i - 1) as nat, (least + i) as nat);
                }
            }
            proof {
                assert forall|w: Seq<int>, k: nat|
                    quantifier_allows(quantifier, k) && #[trigger] matches_repeated(subnode, w, k) implies nfa.reads(start.index(), w, end.index()) by {
                    lemma_rep_split(subnode, w, k, least as nat);
                    let i = choose|i: int| 0 <= i <= w.len() && #[trigger] matches_repeated(subnode, w.take(i), least as nat)
                        && matches_repeated(subnode, w.skip(i), (k - least) as nat);
                    assert(nfa.reads(start.index(), w.take(i), min.index()));
                    assert(nfa.reads(min.index(), w.skip(i), end.index()));
                    lemma_reads_concat(nfa, start.index(), w.take(i), min.index(), w.skip(i), end.index());
                    assert(w.take(i) + w.skip(i) =~= w);
                }
                assert forall|w: Seq<int>| #[trigger] nfa.reads(start.index(), w, end.index())
                    implies exists|k: nat| quantifier_allows(quantifier, k) && #[trigger] matches_repeated(subnode, w, k) by {
                    let k = choose|k: nat| least <= k <= least + i && #[trigger] matches_repeated(subnode, w, k);
                    assert(quantifier_allows(quantifier, k));
                }
            }
            (start, end)
        },
    }
}

fn thompson_construct_grouping<AV>(nfa: &mut Automaton<char, AV>, negated: bool, elements: &Vec<GroupingElement>) -> (r: (State, State))
    requires
        old(nfa).inv(),
        old(nfa).counter() + 2 <= usize::MAX,
    ensures
        final(nfa).extends(old(nfa), 2),
        final(nfa).is_new_state(old(nfa), r.0),
        final(nfa).is_new_state(old(nfa), r.1),
        forall|p: int, t: State| #[trigger] final(nfa).steps_to(r.0.index(), p, t)
            <==> (t == r.1 && grouping_has_point(negated, elements@, p)),
        forall|p: int| grouping_has_point(negated, elements@, p) ==> #[trigger] final(nfa).reads(r.0.index(), seq![p], r.1.index()),
        closed_region(final(nfa), old(nfa).counter(), final(nfa).counter()),
        forall|w: Seq<int>| #[trigger] final(nfa).reads(r.0.index(), w, r.1.index()) ==> w.len() == 1 && grouping_has_point(negated, elements@, w[0]),
{
    let mut ivs = IntervalSet::new();
    let mut k: usize = 0;
    while k < elements.len()
        invariant
            k <= elements@.len(),
            set_wf(ivs.intervals@),
            forall|p: int| covers(ivs.intervals@, p) <==> exists|i: int| 0 <= i < k && element_has_point(#[trigger] elements@[i], p),
        decreases elements@.len() - k,
    {
        let ghost before = ivs.intervals@;
        let iv = match elements[k] {
            GroupingElement::Literal(ch) => Interval::singleton(ch),
            GroupingElement::Range(cfrom, cto) => Interval::with_bounds(LowerBound::Included(cfrom), UpperBound::Included(cto)),
        };
        ivs.insert(iv);
        proof {
            assert forall|p: int| covers(ivs.intervals@, p) <==> exists|i: int| 0 <= i < k + 1 && element_has_point(#[trigger] elements@[i], p) by {
                assert(iv.has_point(p) <==> element_has_point(elements@[k as int], p));
                if exists|i: int| 0 <= i < k + 1 && element_has_point(#[trigger] elements@[i], p) {
                    let i = choose|i: int| 0 <= i < k + 1 && element_has_point(#[trigger] elements@[i], p);
                    if i < k {
                        assert(exists|i: int| 0 <= i < k && element_has_point(#[trigger] elements@[i], p));
                    }
                }
            }
        }
        k = k + 1;
    }
    if negated {
        ivs.invert();
    }
    let ghost group = ivs.intervals@;
    proof {
        assert forall|p: int| covers(group, p) <==> grouping_has_point(negated, elements@, p) by {
        }
    }
    let ghost a0 = *nfa;
    proof {
        a0.lemma_unused_state_empty((a0.counter() + 1) as nat);
        a0.lemma_unused_state_empty((a0.counter() + 2) as nat);
    }
    let start = nfa.unique_state();
    let end = nfa.unique_state();
    proof {
        assert(nfa.transitions_at(start.index()).len() == 0);
    }
    let mut j: usize = 0;
    while j < ivs.intervals.len()
        invariant
            j <= group.len(),
            ivs.intervals@ == group,
            set_wf(group),
            nfa.extends(&a0, 2),
            nfa.is_new_state(&a0, start),
            nfa.is_new_state(&a0, end),
            start.index() == a0.counter() + 1,
            end.index() == a0.counter() + 2,
            nfa.counter() == a0.counter() + 2,
            nfa.epsilon_from(start.index()).len() == 0,
            nfa.epsilon_from(end.index()).len() == 0,
            nfa.transitions_at(end.index()).len() == 0,
            forall|p: int| #![trigger map_covers(nfa.transitions_at(start.index()), p)]
                map_covers(nfa.transitions_at(start.index()), p) <==> covers(group.take(j as int), p),
            forall|p: int, t: State| #[trigger] nfa.steps_to(start.index(), p, t) <==> (t == end && covers(group.take(j as int), p)),
        decreases group.len() - j,
    {
        let iv = ivs.intervals[j];
        let ghost m = nfa.transitions_at(start.index());
        proof {
            assert(map_wf(m)) by {
                assert(nfa.transitions@[start.index() as int].intervals@ == m);
            }
            assert(iv.is_proper());
            assert forall|a: int| 0 <= a < m.len() && (#[trigger] m[a]).0.is_proper() implies !crate::interval_map::intersects(m[a].0, iv) by {
                if crate::interval_map::intersects(m[a].0, iv) {
                    let p = lemma_meeting_share_point(m[a].0, iv);
                    assert(map_covers(m, p));
                    assert(covers(group.take(j as int), p));
                    let b = choose|b: int| 0 <= b < group.take(j as int).len() && (#[trigger] group.take(j as int)[b]).has_point(p);
                    assert(apart(group[b], group[j as int]));
                }
            }
        }
        let ghost b0 = *nfa;
        nfa.add_transition(start, iv, end);
        proof {
            assert(group.take(j + 1) == group.take(j as int).push(iv));
            assert forall|p: int| covers(group.take(j + 1), p) <==> (covers(group.take(j as int), p) || iv.has_point(p)) by {
                let g = group.take(j as int);
                let g1 = group.take(j + 1);
                if covers(g1, p) {
                    let b = choose|b: int| 0 <= b < g1.len() && (#[trigger] g1[b]).has_point(p);
                    if b < j {
                        assert(g[b] == g1[b]);
                    }
                }
                if covers(g, p) {
                    let b = choose|b: int| 0 <= b < g.len() && (#[trigger] g[b]).has_point(p);
                    assert(g1[b] == g[b]);
                }
                if iv.has_point(p) {
                    assert(g1[j as int] == iv);
                }
            }
            assert forall|s: nat| s <= a0.counter() implies #[trigger] nfa.transitions_at(s) == a0.transitions_at(s) by {
                assert(nfa.transitions_at(s) == b0.transitions_at(s));
            }
            assert forall|s: nat| s <= a0.counter() implies #[trigger] nfa.epsilon_from(s) == a0.epsilon_from(s) by {
                assert(nfa.epsilon_from(s) == b0.epsilon_from(s));
            }
            assert forall|s: nat| #[trigger] nfa.accepting_at(s) == a0.accepting_at(s) by {
                assert(nfa.accepting_at(s) == b0.accepting_at(s));
            }
        }
        j = j + 1;
    }
    proof {
        assert(group.take(j as int) == group);
        assert forall|p: int| grouping_has_point(negated, elements@, p) implies #[trigger] nfa.reads(start.index(), seq![p], end.index()) by {
            assert(nfa.steps_to(start.index(), p, end));
            lemma_reads_point(nfa, start.index(), p, end);
        }
        let pred = |p: int| grouping_has_point(negated, elements@, p);
        assert forall|p: int, t: State| #[trigger] nfa.steps_to(start.index(), p, t) <==> (t == end && pred(p)) by {
        }
        lemma_two_state_fragment(nfa, a0.counter(), start, end, pred);
    }
    (start, end)
}

fn thompson_construct_literal<AV>(nfa: &mut Automaton<char, AV>, ch: char) -> (r: (State, State))
    requires
        old(nfa).inv(),
        old(nfa).counter() + 2 <= usize::MAX,
    ensures
        final(nfa).extends(old(nfa), 2),
        final(nfa).is_new_state(old(nfa), r.0),
        final(nfa).is_new_state(old(nfa), r.1),
        forall|p: int, t: State| #[trigger] final(nfa).steps_to(r.0.index(), p, t) <==> (t == r.1 && p == 2 * ch.key()),
        final(nfa).reads(r.0.index(), seq![2 * ch.key()], r.1.index()),
        closed_region(final(nfa), old(nfa).counter(), final(nfa).counter()),
        forall|w: Seq<int>| #[trigger] final(nfa).reads(r.0.index(), w, r.1.index()) ==> w == seq![2 * ch.key()],
{
    let ghost a0 = *nfa;
    proof {
        a0.lemma_unused_state_empty((a0.counter() + 1) as nat);
    }
    let start = nfa.unique_state();
    let end = nfa.unique_state();
    proof {
        assert(nfa.transitions_at(start.index()).len() == 0);
    }
    nfa.add_transition(start, Interval::singleton(ch), end);
    proof {
        assert(nfa.steps_to(start.index(), 2 * ch.key(), end));
        lemma_reads_point(nfa, start.index(), 2 * ch.key(), end);
        a0.lemma_unused_state_empty((a0.counter() + 2) as nat);
        let pred = |p: int| p == 2 * ch.key();
        assert forall|p: int, t: State| #[trigger] nfa.steps_to(start.index(), p, t) <==> (t == end && pred(p)) by {
        }
        lemma_two_state_fragment(nfa, a0.counter(), start, end, pred);
        assert forall|w: Seq<int>| #[trigger] nfa.reads(start.index(), w, end.index()) implies w == seq![2 * ch.key()] by {
            assert(w =~= seq![2 * ch.key()]);
        }
    }
    (start, end)
}

impl<AcceptingValue> Automaton<char, AcceptingValue> {
    /// Adds the fragment of `rx`, reached from the start state by an epsilon
    /// transition, whose end accepts with `value`. Returns the fragment's
    /// first and last state.
    pub fn add_regex_with_accepting_value(&mut self, rx: &Node, value: AcceptingValue) -> (r: (State, State))
        requires
            old(self).inv(),
            repetitions_ordered(rx),
            old(self).counter() + thompson_size(rx) <= usize::MAX,
        ensures
            final(self).inv(),
            final(self).counter() == old(self).counter() + thompson_size(rx),
            final(self).start_state() == old(self).start_state(),
            final(self).is_new_state(old(self), r.0),
            final(self).is_new_state(old(self), r.1),
            forall|s: nat| final(self).accepting_at(s) == (if s == r.1.index() { Some(value) } else { old(self).accepting_at(s) }),
            final(self).epsilon_from(old(self).start_state().index()) == old(self).epsilon_from(old(self).start_state().index()).push(r.0),
            forall|s: nat| s <= old(self).counter() && s != old(self).start_state().index() ==> final(self).epsilon_from(s) == old(self).epsilon_from(s),
            forall|s: nat| s <= old(self).counter() ==> final(self).transitions_at(s) == old(self).transitions_at(s),
            forall|w: Seq<int>| #[trigger] matches_word(rx, w) ==> final(self).reads(final(self).start_state().index(), w, r.1.index()),
            closed_region(final(self), old(self).counter(), final(self).counter()),
            forall|w: Seq<int>| #[trigger] final(self).reads(r.0.index(), w, r.1.index()) <==> matches_word(rx, w),
            old(self).below(&*final(self)),
    {
        let (from, to) = thompson_construct(self, rx);
        let ghost a1 = *self;
        proof {
            assert(!self.epsilon_from(self.start.index()).contains(from)) by {
                if self.epsilon_from(self.start.index()).contains(from) {
                    let k = choose|k: int| 0 <= k < self.epsilon_from(self.start.index()).len() && self.epsilon_from(self.start.index())[k] == from;
                    assert(self.epsilon@[0]@[k] == from);
                    assert(old(self).epsilon@[0]@[k].index() <= old(self).counter());
                }
            }
        }
        self.add_epsilon_transition(self.start, from);
        let ghost b1 = *self;
        self.add_accepting_with_value(to, value);
        proof {
            lemma_below_eps_added(&a1, &b1, 0, from);
            lemma_below_same(&b1, self);
            lemma_below_trans(&a1, &b1, self);
            assert(self.start.index() == 0);
            assert forall|w: Seq<int>| #[trigger] matches_word(rx, w) implies self.reads(from.index(), w, to.index()) && self.reads(self.start_state().index(), w, to.index()) by {
                lemma_reads_lift(&a1, self, from.index(), w, to.index());
                lemma_reads_eps(self, 0, from.index());
                lemma_reads_concat(self, 0, Seq::<int>::empty(), from.index(), w, to.index());
                assert(Seq::<int>::empty() + w =~= w);
            }
            let lo = old(self).counter();
            let hi = a1.counter();
            let added = set![(0nat, from.index())];
            lemma_grew_eps(&a1, &b1, 0, from);
            lemma_grew_same(&b1, self);
            lemma_grew_trans(&a1, &b1, self, added, Set::empty());
            assert(added.union(Set::<(nat, nat)>::empty()) =~= added);
            lemma_kept_from_grew(&a1, self, added, lo, hi, to.index());
            assert forall|x: nat, z: nat| lo < x <= hi && #[trigger] self.eps_step(x, z) implies lo < z <= hi by {
                if !added.contains((x, z)) {
                    assert(a1.eps_step(x, z));
                }
            }
            assert forall|x: nat, p: int, t: State| lo < x <= hi && #[trigger] self.steps_to(x, p, t) implies lo < t.index() <= hi by {
                assert(a1.steps_to(x, p, t));
            }
            assert forall|w: Seq<int>| #[trigger] self.reads(from.index(), w, to.index()) implies matches_word(rx, w) by {
                let n = choose|n: nat| self.run(from.index(), w, to.index(), n);
                lemma_exit(&a1, self, lo, hi, to.index(), from.index(), w, to.index(), n);
                if !a1.run(from.index(), w, to.index(), n) {
                    let (i, z, m) = choose|i: int, z: nat, m: nat|
                        #![trigger self.run(z, w.skip(i), to.index(), m)]
                        0 <= i <= w.len() && m < n && a1.reads(from.index(), w.take(i), to.index()) && self.eps_step(to.index(), z)
                            && !(lo < z <= hi) && self.run(z, w.skip(i), to.index(), m);
                    if !added.contains((to.index(), z)) {
                        assert(a1.eps_step(to.index(), z));
                    }
                } else {
                    assert(a1.reads(from.index(), w, to.index()));
                }
            }
        }
        proof {
            let o = *old(self);
            assert forall|x: nat, z: nat| #[trigger] o.eps_step(x, z) implies self.eps_step(x, z) by {
                if x > o.counter() {
                    o.lemma_unused_state_empty(x);
                } else {
                    let q = choose|q: int| 0 <= q < o.epsilon_from(x).len() && (#[trigger] o.epsilon_from(x)[q]).index() == z;
                    if x == o.start_state().index() {
                        assert(self.epsilon_from(x)[q] == o.epsilon_from(x)[q]);
                    } else {
                        assert(self.epsilon_from(x) == o.epsilon_from(x));
                    }
                }
            }
            assert forall|x: nat, p: int, t: State| #[trigger] o.steps_to(x, p, t) implies self.steps_to(x, p, t) by {
                if x > o.counter() {
                    o.lemma_unused_state_empty(x);
                } else {
                    assert(self.transitions_at(x) == o.transitions_at(x));
                }
            }
        }
        (from, to)
    }
}

impl<AcceptingValue: Default> Automaton<char, AcceptingValue> {
    /// Adds the fragment of `rx`, reached from the start state by an epsilon
    /// transition, whose end accepts with the default value. Returns the
    /// fragment's first and last state.
    pub fn add_regex(&mut self, rx: &Node) -> (r: (State, State))
        requires
            old(self).inv(),
            repetitions_ordered(rx),
            old(self).counter() + thompson_size(rx) <= usize::MAX,
        ensures
            final(self).inv(),
            final(self).counter() == old(self).counter() + thompson_size(rx),
            final(self).start_state() == old(self).start_state(),
            final(self).is_new_state(old(self), r.0),
            final(self).is_new_state(old(self), r.1),
            final(self).accepting_at(r.1.index()) is Some,
            forall|s: nat| s != r.1.index() ==> final(self).accepting_at(s) == old(self).accepting_at(s),
            final(self).epsilon_from(old(self).start_state().index()) == old(self).epsilon_from(old(self).start_state().index()).push(r.0),
            forall|s: nat| s <= old(self).counter() && s != old(self).start_state().index() ==> final(self).epsilon_from(s) == old(self).epsilon_from(s),
            forall|s: nat| s <= old(self).counter() ==> final(self).transitions_at(s) == old(self).transitions_at(s),
            forall|w: Seq<int>| #[trigger] matches_word(rx, w) ==> final(self).reads(final(self).start_state().index(), w, r.1.index()),
            closed_region(final(self), old(self).counter(), final(self).counter()),
            forall|w: Seq<int>| #[trigger] final(self).reads(r.0.index(), w, r.1.index()) <==> matches_word(rx, w),
    {
        self.add_regex_with_accepting_value(rx, AcceptingValue::default())
    }

    /// The automaton of `rx` alone: the start state leads by an epsilon
    /// transition into the fragment of `rx`, whose end accepts with the
    /// default value.
    pub fn from_regex(rx: Node) -> (r: Self)
        requires
            repetitions_ordered(&rx),
            thompson_size(&rx) <= usize::MAX,
        ensures
            r.inv(),
            r.counter() == thompson_size(&rx),
            r.start_state().index() == 0,
            exists|from: State, to: State| {
                &&& 1 <= from.index() <= r.counter()
                &&& 1 <= to.index() <= r.counter()
                &&& r.epsilon_from(0) == seq![from]
                &&& r.accepting_at(to.index()) is Some
                &&& forall|s: nat| s != to.index() ==> (#[trigger] r.accepting_at(s)) is None
                &&& forall|w: Seq<int>| #[trigger] r.reads(0, w, to.index()) <==> matches_word(&rx, w)
            },
    {
        let mut nf = Self::new();
        let ghost a0 = nf;
        let (from, to) = nf.add_regex(&rx);
        proof {
            assert(Seq::<State>::empty().push(from) == seq![from]);
            assert(nf.epsilon_from(0) == seq![from]);
            assert(nf.transitions_at(0) == a0.transitions_at(0));
            assert forall|w: Seq<int>| #[trigger] nf.reads(0, w, to.index()) implies matches_word(&rx, w) by {
                let n = choose|n: nat| nf.run(0, w, to.index(), n);
                assert(n > 0);
                if exists|t: State| nf.steps_to(0, w[0], t) && nf.run(t.index(), w.drop_first(), to.index(), (n - 1) as nat) {
                    let t = choose|t: State| nf.steps_to(0, w[0], t) && nf.run(t.index(), w.drop_first(), to.index(), (n - 1) as nat);
                    assert(nf.transitions_at(0).len() == 0);
                }
                let z = choose|z: nat| nf.eps_step(0, z) && nf.run(z, w, to.index(), (n - 1) as nat);
                let k = choose|k: int| 0 <= k < nf.epsilon_from(0).len() && (#[trigger] nf.epsilon_from(0)[k]).index() == z;
                assert(z == from.index());
                assert(nf.reads(from.index(), w, to.index()));
            }
        }
        nf
    }
}

} // verus!

verus! {

/// An epsilon transition followed by epsilon transitions reaches as far.
proof fn lemma_reaches_prepend<T: Endpoint, AV>(a: &Automaton<T, AV>, x: nat, y: nat, t: nat)
    requires
        a.eps_step(x, y),
        a.eps_reaches(y, t),
    ensures
        a.eps_reaches(x, t),
{
    let p = choose|p: Seq<nat>| #[trigger] a.is_eps_path(p) && p[0] == y && p.last() == t;
    let q = seq![x] + p;
    assert forall|i: int| 0 <= i < q.len() - 1 implies a.eps_step(#[trigger] q[i], q[i + 1]) by {
        if i > 0 {
            assert(q[i] == p[i - 1] && q[i + 1] == p[i]);
        }
    }
    assert(a.is_eps_path(q));
    assert(q.last() == p.last());
}

/// What `b` reaches by epsilon transitions along `p`, where `b` is `a` with
/// one more epsilon transition from `from` to `to`: what `a` reaches, or,
/// through the new transition, what `a` reaches from `to`.
proof fn lemma_path_with_added<T: Endpoint, AV>(a: &Automaton<T, AV>, b: &Automaton<T, AV>, from: nat, to: nat, p: Seq<nat>)
    requires
        forall|x: nat, z: nat| #[trigger] b.eps_step(x, z) ==> a.eps_step(x, z) || (x == from && z == to),
        b.is_eps_path(p),
    ensures
        a.eps_reaches(p[0], p.last()) || (a.eps_reaches(p[0], from) && a.eps_reaches(to, p.last())),
    decreases p.len(),
{
    if p.len() == 1 {
        a.lemma_reaches_self(p[0]);
    } else {
        let rest = p.drop_first();
        assert forall|i: int| 0 <= i < rest.len() - 1 implies b.eps_step(#[trigger] rest[i], rest[i + 1]) by {
            assert(rest[i] == p[i + 1] && rest[i + 1] == p[i + 2]);
            assert(b.eps_step(p[i + 1], p[i + 2]));
        }
        lemma_path_with_added(a, b, from, to, rest);
        assert(rest[0] == p[1] && rest.last() == p.last());
        assert(b.eps_step(p[0], p[1]));
        if a.eps_step(p[0], p[1]) {
            if a.eps_reaches(p[1], p.last()) {
                lemma_reaches_prepend(a, p[0], p[1], p.last());
            } else {
                lemma_reaches_prepend(a, p[0], p[1], from);
            }
        } else {
            a.lemma_reaches_self(from);
        }
    }
}

/// Adding an epsilon transition from `from` to `to` (as
/// `add_epsilon_transition` does) extends what a state reaches by epsilon
/// transitions exactly by what `to` reaches, where the state reached
/// `from`: `t` is reached from `s` afterwards if and only if it was before,
/// or `s` reached `from` and `to` reached `t`.
pub proof fn lemma_epsilon_closure_added<T: Endpoint, AV>(a: &Automaton<T, AV>, b: &Automaton<T, AV>, from: State, to: State, s: nat, t: nat)
    requires
        forall|x: nat| x != from.index() ==> b.epsilon_from(x) == a.epsilon_from(x),
        b.epsilon_from(from.index()) == (if a.epsilon_from(from.index()).contains(to) {
            a.epsilon_from(from.index())
        } else {
            a.epsilon_from(from.index()).push(to)
        }),
    ensures
        b.eps_reaches(s, t) <==> a.eps_reaches(s, t) || (a.eps_reaches(s, from.index()) && a.eps_reaches(to.index(), t)),
{
    let f = from.index();
    assert forall|x: nat, z: nat| #[trigger] b.eps_step(x, z) implies a.eps_step(x, z) || (x == f && z == to.index()) by {
        let k = choose|k: int| 0 <= k < b.epsilon_from(x).len() && (#[trigger] b.epsilon_from(x)[k]).index() == z;
        if x == f && !a.epsilon_from(f).contains(to) && k == a.epsilon_from(f).len() {
        } else if x == f && !a.epsilon_from(f).contains(to) {
            assert(b.epsilon_from(x)[k] == a.epsilon_from(x)[k]);
        }
    }
    assert forall|x: nat, z: nat| #[trigger] a.eps_step(x, z) implies b.eps_step(x, z) by {
        let k = choose|k: int| 0 <= k < a.epsilon_from(x).len() && (#[trigger] a.epsilon_from(x)[k]).index() == z;
        if x == f && !a.epsilon_from(f).contains(to) {
            assert(b.epsilon_from(x)[k] == a.epsilon_from(x)[k]);
        }
    }
    assert(b.eps_step(f, to.index())) by {
        if a.epsilon_from(f).contains(to) {
            let k = choose|k: int| 0 <= k < a.epsilon_from(f).len() && a.epsilon_from(f)[k] == to;
            assert(b.epsilon_from(f)[k] == to);
        } else {
            assert(b.epsilon_from(f)[a.epsilon_from(f).len() as int] == to);
        }
    }
    if b.eps_reaches(s, t) {
        let p = choose|p: Seq<nat>| #[trigger] b.is_eps_path(p) && p[0] == s && p.last() == t;
        lemma_path_with_added(a, b, f, to.index(), p);
    }
    if a.eps_reaches(s, t) {
        let p = choose|p: Seq<nat>| #[trigger] a.is_eps_path(p) && p[0] == s && p.last() == t;
        assert(b.is_eps_path(p));
    }
    if a.eps_reaches(s, f) && a.eps_reaches(to.index(), t) {
        let p1 = choose|p: Seq<nat>| #[trigger] a.is_eps_path(p) && p[0] == s && p.last() == f;
        let p2 = choose|p: Seq<nat>| #[trigger] a.is_eps_path(p) && p[0] == to.index() && p.last() == t;
        let q = p1 + p2;
        assert forall|i: int| 0 <= i < q.len() - 1 implies b.eps_step(#[trigger] q[i], q[i + 1]) by {
            if i < p1.len() - 1 {
                assert(q[i] == p1[i] && q[i + 1] == p1[i + 1]);
                assert(a.eps_step(p1[i], p1[i + 1]));
            } else if i == p1.len() - 1 {
                assert(q[i] == f && q[i + 1] == to.index());
            } else {
                assert(q[i] == p2[i - p1.len()] && q[i + 1] == p2[i - p1.len() + 1]);
                assert(a.eps_step(p2[i - p1.len()], p2[i - p1.len() + 1]));
            }
        }
        assert(b.is_eps_path(q));
        assert(q[0] == s && q.last() == t);
    }
}

} // verus!
