//! The finite-state-machine engine: state and transition declarations,
//! a live machine instance, and the transition-validation algorithm.

use vstd::prelude::*;

verus! {

/// Wildcard token. As a transition source it means "from any declared state",
/// but it never matches while the machine is still in the initial pseudo-state.
/// It is reserved: no user-defined state may carry this ID, and no transition
/// may use it as a destination.
pub const ANY: &'static str = "*";

/// ID of the initial pseudo-state: a fresh machine starts here, before its
/// first transition. It is reserved: no user-defined state may carry this ID,
/// and no transition may use it as a destination.
pub const INITIAL: &'static str = "";

/// True of the two reserved IDs that a user-defined state may never carry.
pub open spec fn is_reserved_id(id: Seq<char>) -> bool {
    id == ANY@ || id == INITIAL@
}

/// The three error kinds of the engine. Every error is returned as a value and
/// leaves the machine (or the setup) exactly as it was before the failing call.
#[derive(Debug)]
pub enum Error {
    /// A declaration used a reserved ID; carries the offending ID.
    InvalidStateID(String),
    /// No declared transition allows the requested move; carries the current
    /// state ID and the requested destination ID.
    NoTransition(String, String),
    /// A transition rule points at a destination that was never declared as a
    /// state; carries the requested destination ID.
    NoState(String),
}

/// A declared state: an immutable named vertex, identified by its ID.
pub struct State {
    pub id: String,
}

/// A snapshot of the machine's live state: exactly the ID of the state the
/// machine currently occupies. A new one is built on every successful
/// transition; it is the value handed to the observer and to the caller.
#[derive(Debug)]
pub struct FiniteState {
    pub id: String,
}

/// An observer: a capability that receives a snapshot of the new current
/// state, synchronously, once per successful transition.
pub trait Receiver {
    fn receive_state(&self, fstate: &FiniteState);
}

/// A declared transition: an ordered pair (source ID, destination ID).
pub type Transition = (String, String);

/// The IDs of a sequence of declared states, in declaration order.
pub open spec fn ids_of(ss: Seq<State>) -> Seq<Seq<char>> {
    ss.map_values(|s: State| s.id@)
}

/// The (source ID, destination ID) pairs of a sequence of declared
/// transitions, in declaration order.
pub open spec fn pairs_of(ts: Seq<Transition>) -> Seq<(Seq<char>, Seq<char>)> {
    ts.map_values(|t: Transition| (t.0@, t.1@))
}

/// True when a transition source `p` applies while the machine is in state
/// `cur`: either `p` is exactly `cur`, or `p` is the wildcard token and the
/// machine has left the initial pseudo-state. The wildcard never matches the
/// initial pseudo-state: the very first move needs an explicit rule.
pub open spec fn source_matches(p: Seq<char>, cur: Seq<char>) -> bool {
    p == cur || (cur != INITIAL@ && p == ANY@)
}

/// True when the declared transition `t` authorizes a move from state `cur`
/// to state `next`.
pub open spec fn trans_matches(t: (Seq<char>, Seq<char>), cur: Seq<char>, next: Seq<char>) -> bool {
    t.1 == next && source_matches(t.0, cur)
}

/// True when some declared transition authorizes a move from `cur` to `next`.
pub open spec fn has_transition(
    ts: Seq<(Seq<char>, Seq<char>)>,
    cur: Seq<char>,
    next: Seq<char>,
) -> bool {
    exists|i: int| 0 <= i < ts.len() && trans_matches(ts[i], cur, next)
}

/// True when some declared state carries the ID `id`.
pub open spec fn has_state(ids: Seq<Seq<char>>, id: Seq<char>) -> bool {
    exists|i: int| 0 <= i < ids.len() && ids[i] == id
}

/// The predicate over declared transitions "the source applies from `cur`".
pub open spec fn source_pred(cur: Seq<char>) -> spec_fn((Seq<char>, Seq<char>)) -> bool {
    |t: (Seq<char>, Seq<char>)| source_matches(t.0, cur)
}

/// The declared transitions whose source applies from state `cur`, kept in
/// declaration order.
pub open spec fn matching_from(
    ts: Seq<(Seq<char>, Seq<char>)>,
    cur: Seq<char>,
) -> Seq<(Seq<char>, Seq<char>)> {
    ts.filter(source_pred(cur))
}

/// True when `ts[i]` is the first transition in declaration order that
/// authorizes a move from `cur` to `next`. Lookup resolves to the first
/// match, so earlier declarations shadow later ones.
pub open spec fn is_first_match(
    ts: Seq<(Seq<char>, Seq<char>)>,
    cur: Seq<char>,
    next: Seq<char>,
    i: int,
) -> bool {
    &&& 0 <= i < ts.len()
    &&& trans_matches(ts[i], cur, next)
    &&& forall|j: int| 0 <= j < i ==> !trans_matches(ts[j], cur, next)
}

/// A request to move from `cur` to `next` is granted exactly when a declared
/// transition authorizes the move and the destination is a declared state.
pub open spec fn transition_allowed(
    ids: Seq<Seq<char>>,
    ts: Seq<(Seq<char>, Seq<char>)>,
    cur: Seq<char>,
    next: Seq<char>,
) -> bool {
    has_transition(ts, cur, next) && has_state(ids, next)
}

/// Setup for a state machine: accumulates the vocabulary of declared states
/// and transitions, plus an optional observer, before execution begins.
pub struct Setup<'a> {
    receiver: Option<&'a dyn Receiver>,
    states: Vec<State>,
    transitions: Vec<Transition>,
}

/// Compares two string slices by contents.
fn str_eq(a: &str, b: &str) -> (r: bool)
    ensures
        r == (a@ == b@),
{
    let sa: String = a.to_owned();
    let sb: String = b.to_owned();
    sa == sb
}

impl FiniteState {
    /// Creates a snapshot of the given declared state; `state` is not consumed.
    pub fn new(state: &State) -> (fs: FiniteState)
        ensures
            fs.id@ == state.id@,
    {
        FiniteState { id: state.id.clone() }
    }
}

impl<'a> Setup<'a> {
    /// The IDs of the states declared so far, in declaration order.
    pub closed spec fn state_ids(&self) -> Seq<Seq<char>> {
        ids_of(self.states@)
    }

    /// The transitions declared so far, in declaration order.
    pub closed spec fn transition_pairs(&self) -> Seq<(Seq<char>, Seq<char>)> {
        pairs_of(self.transitions@)
    }

    /// The registered observer, if any.
    pub closed spec fn receiver_ref(&self) -> Option<&'a dyn Receiver> {
        self.receiver
    }

    /// Whether an observer has been registered.
    pub open spec fn has_receiver(&self) -> bool {
        self.receiver_ref() is Some
    }

    /// Creates an empty setup: no states, no transitions, no observer.
    pub fn new() -> (s: Setup<'a>)
        ensures
            s.state_ids() == Seq::<Seq<char>>::empty(),
            s.transition_pairs() == Seq::<(Seq<char>, Seq<char>)>::empty(),
            !s.has_receiver(),
    {
        let s = Setup { receiver: None, states: Vec::<State>::new(), transitions: Vec::<Transition>::new() };
        proof {
            assert(s.state_ids() =~= Seq::<Seq<char>>::empty());
            assert(s.transition_pairs() =~= Seq::<(Seq<char>, Seq<char>)>::empty());
        }
        s
    }

    /// Declares a new state. Fails with `InvalidStateID` exactly when `id` is
    /// one of the two reserved IDs; otherwise appends the state. Duplicates
    /// are not checked for.
    pub fn add_state(&mut self, id: &str) -> (r: Result<(), Error>)
        ensures
            final(self).transition_pairs() == old(self).transition_pairs(),
            final(self).receiver_ref() == old(self).receiver_ref(),
            is_reserved_id(id@) ==> ({
                &&& r matches Err(Error::InvalidStateID(e)) && e@ == id@
                &&& final(self).state_ids() == old(self).state_ids()
            }),
            !is_reserved_id(id@) ==> ({
                &&& r is Ok
                &&& final(self).state_ids() == old(self).state_ids().push(id@)
            }),
    {
        if str_eq(id, ANY) || str_eq(id, INITIAL) {
            Err(Error::InvalidStateID(id.to_owned()))
        } else {
            self.states.push(State { id: id.to_owned() });
            proof {
                assert(self.state_ids() =~= old(self).state_ids().push(id@));
            }
            Ok(())
        }
    }

    /// Declares a new transition from `prev` to `next`. Fails with
    /// `InvalidStateID` exactly when `next` is one of the two reserved IDs (a
    /// transition must land on a concrete state); otherwise appends the pair.
    /// The source is unrestricted here: it is judged only at transition time.
    pub fn add_transition(&mut self, prev: &str, next: &str) -> (r: Result<(), Error>)
        ensures
            final(self).state_ids() == old(self).state_ids(),
            final(self).receiver_ref() == old(self).receiver_ref(),
            is_reserved_id(next@) ==> ({
                &&& r matches Err(Error::InvalidStateID(e)) && e@ == next@
                &&& final(self).transition_pairs() == old(self).transition_pairs()
            }),
            !is_reserved_id(next@) ==> ({
                &&& r is Ok
                &&& final(self).transition_pairs() == old(self).transition_pairs().push((prev@, next@))
            }),
    {
        if str_eq(next, ANY) || str_eq(next, INITIAL) {
            Err(Error::InvalidStateID(next.to_owned()))
        } else {
            self.transitions.push((prev.to_owned(), next.to_owned()));
            proof {
                assert(self.transition_pairs() =~= old(self).transition_pairs().push((prev@, next@)));
            }
            Ok(())
        }
    }

    /// Registers the observer to be notified on every successful transition.
    /// Always succeeds; at most one observer is held, a later call replaces
    /// an earlier one.
    pub fn set_receiver(&mut self, receiver: &'a dyn Receiver) -> (r: Result<(), Error>)
        ensures
            r is Ok,
            final(self).receiver_ref() == Some(receiver),
            final(self).state_ids() == old(self).state_ids(),
            final(self).transition_pairs() == old(self).transition_pairs(),
    {
        let observer = Some(receiver);
        self.receiver = observer;
        Ok(())
    }
}

/// The live machine: owns its own copies of the declared states and
/// transitions, the current state snapshot, and the optional observer. It is
/// the only entity that mutates the current state over time.
pub struct StateMachine<'a> {
    current_state: FiniteState,
    receiver: Option<&'a dyn Receiver>,
    states: Vec<State>,
    transitions: Vec<Transition>,
}

impl<'a> StateMachine<'a> {
    /// The ID of the state the machine currently occupies.
    pub closed spec fn current_id(&self) -> Seq<char> {
        self.current_state.id@
    }

    /// The IDs of the declared states, in declaration order.
    pub closed spec fn state_ids(&self) -> Seq<Seq<char>> {
        ids_of(self.states@)
    }

    /// The declared transitions, in declaration order.
    pub closed spec fn transition_pairs(&self) -> Seq<(Seq<char>, Seq<char>)> {
        pairs_of(self.transitions@)
    }

    /// The attached observer, if any.
    pub closed spec fn receiver_ref(&self) -> Option<&'a dyn Receiver> {
        self.receiver
    }

    /// Whether an observer is attached.
    pub open spec fn has_receiver(&self) -> bool {
        self.receiver_ref() is Some
    }

    /// Builds a machine from a setup: deep, independent copies of the
    /// declared states and transitions, the observer reference carried over,
    /// and the current state initialized to the initial pseudo-state.
    pub fn new(setup: Setup<'a>) -> (m: StateMachine<'a>)
        ensures
            m.current_id() == INITIAL@,
            m.state_ids() == setup.state_ids(),
            m.transition_pairs() == setup.transition_pairs(),
            m.receiver_ref() == setup.receiver_ref(),
    {
        let mut machine = StateMachine {
            current_state: FiniteState { id: INITIAL.to_owned() },
            receiver: setup.receiver,
            states: Vec::<State>::new(),
            transitions: Vec::<Transition>::new(),
        };
        let n_states: usize = setup.states.len();
        let mut i: usize = 0;
        while i < n_states
            invariant
                i <= n_states,
                n_states == setup.states@.len(),
                machine.states@.len() == i,
                forall|k: int| 0 <= k < i ==> machine.states@[k].id@ == setup.states@[k].id@,
                machine.transitions@.len() == 0,
                machine.current_state.id@ == INITIAL@,
                machine.receiver == setup.receiver,
            decreases n_states - i,
        {
            machine.states.push(State { id: setup.states[i].id.clone() });
            i = i + 1;
        }
        let n_trans: usize = setup.transitions.len();
        let mut j: usize = 0;
        while j < n_trans
            invariant
                j <= n_trans,
                n_trans == setup.transitions@.len(),
                machine.states@.len() == setup.states@.len(),
                forall|k: int| 0 <= k < machine.states@.len()
                    ==> machine.states@[k].id@ == setup.states@[k].id@,
                machine.transitions@.len() == j,
                forall|k: int| 0 <= k < j ==> machine.transitions@[k].0@ == setup.transitions@[k].0@
                    && machine.transitions@[k].1@ == setup.transitions@[k].1@,
                machine.current_state.id@ == INITIAL@,
                machine.receiver == setup.receiver,
            decreases n_trans - j,
        {
            let p: String = setup.transitions[j].0.clone();
            let n: String = setup.transitions[j].1.clone();
            machine.transitions.push((p, n));
            j = j + 1;
        }
        proof {
            assert(machine.state_ids() =~= setup.state_ids());
            assert(machine.transition_pairs() =~= setup.transition_pairs());
        }
        machine
    }

    /// Looks up a declared state by ID: the first declared state whose ID
    /// equals `id`, or `None` when no declared state carries that ID.
    fn get_state(&self, id: &str) -> (r: Option<&State>)
        ensures
            r is Some <==> has_state(self.state_ids(), id@),
            r matches Some(s) ==> s.id@ == id@,
    {
        let n: usize = self.states.len();
        let mut i: usize = 0;
        while i < n
            invariant
                i <= n,
                n == self.states@.len(),
                forall|k: int| 0 <= k < i ==> self.state_ids()[k] != id@,
            decreases n - i,
        {
            if str_eq(id, self.states[i].id.as_str()) {
                proof {
                    assert(self.state_ids()[i as int] == id@);
                }
                return Some(&self.states[i]);
            }
            proof {
                assert(self.state_ids()[i as int] == self.states@[i as int].id@);
            }
            i = i + 1;
        }
        None
    }

    /// All declared transitions whose source applies from state `prev`, in
    /// declaration order, or `None` when no declared transition's source
    /// applies there.
    fn get_transitions_from(&self, prev: &str) -> (r: Option<Vec<Transition>>)
        ensures
            ({
                let kept = matching_from(self.transition_pairs(), prev@);
                match r {
                    Some(v) => pairs_of(v@) == kept && v@.len() > 0 && (forall|k: int|
                        0 <= k < v@.len() ==> self.transition_pairs().contains(
                            #[trigger] pairs_of(v@)[k],
                        )),
                    None => kept.len() == 0,
                }
            }),
    {
        let mut out: Vec<Transition> = Vec::new();
        let n: usize = self.transitions.len();
        let mut i: usize = 0;
        while i < n
            invariant
                i <= n,
                n == self.transitions@.len(),
                pairs_of(out@) == matching_from(self.transition_pairs().take(i as int), prev@),
                forall|k: int| 0 <= k < out@.len() ==> self.transition_pairs().contains(
                    #[trigger] pairs_of(out@)[k],
                ),
            decreases n - i,
        {
            let p_matches = str_eq(self.transitions[i].0.as_str(), prev) || (!str_eq(
                prev,
                INITIAL,
            ) && str_eq(self.transitions[i].0.as_str(), ANY));
            if p_matches {
                let p: String = self.transitions[i].0.clone();
                let n_id: String = self.transitions[i].1.clone();
                out.push((p, n_id));
            }
            i = i + 1;
            proof {
                let tsv = self.transition_pairs();
                assert(tsv.take(i as int) =~= tsv.take(i - 1).push(tsv[i - 1]));
                lemma_matching_from_push(tsv.take(i - 1), prev@, tsv[i - 1]);
                assert(source_pred(prev@)(tsv[i - 1]) == source_matches(tsv[i - 1].0, prev@));
                assert(tsv[i - 1] == (self.transitions@[i - 1].0@, self.transitions@[i - 1].1@));
                if p_matches {
                    assert(pairs_of(out@) =~= matching_from(tsv.take(i as int), prev@));
                    assert(tsv.contains(pairs_of(out@)[out@.len() - 1]));
                }
            }
        }
        proof {
            assert(self.transition_pairs().take(n as int) =~= self.transition_pairs());
        }
        if out.len() > 0 {
            Some(out)
        } else {
            None
        }
    }

    /// Looks for a declared transition that authorizes a move from `prev` to
    /// `next`: the first declared transition, in declaration order, whose
    /// source applies from `prev` and whose destination is `next`, or `None`
    /// when no declared transition authorizes the move.
    fn get_transition(&self, prev: &str, next: &str) -> (r: Option<Transition>)
        ensures
            r is Some <==> has_transition(self.transition_pairs(), prev@, next@),
            r matches Some(t) ==> exists|i: int|
                #[trigger] is_first_match(self.transition_pairs(), prev@, next@, i)
                    && self.transition_pairs()[i] == (t.0@, t.1@),
    {
        let transitions = match self.get_transitions_from(prev) {
            None => {
                proof {
                    lemma_no_source_no_transition(self.transition_pairs(), prev@, next@);
                }
                return None;
            },
            Some(v) => v,
        };
        let n: usize = transitions.len();
        let mut i: usize = 0;
        while i < n
            invariant
                i <= n,
                n == transitions@.len(),
                pairs_of(transitions@) == matching_from(self.transition_pairs(), prev@),
                forall|k: int| 0 <= k < transitions@.len() ==> self.transition_pairs().contains(
                    #[trigger] pairs_of(transitions@)[k],
                ),
                forall|k: int| 0 <= k < i ==> pairs_of(transitions@)[k].1 != next@,
            decreases n - i,
        {
            if str_eq(transitions[i].1.as_str(), next) {
                proof {
                    let tsv = self.transition_pairs();
                    let e = pairs_of(transitions@)[i as int];
                    assert(e.1 == next@);
                    lemma_first_in_filtered_is_first_match(tsv, prev@, next@, i as int);
                    let w = choose|w: int|
                        is_first_match(tsv, prev@, next@, w) && tsv[w] == matching_from(
                            tsv,
                            prev@,
                        )[i as int];
                    assert(trans_matches(tsv[w], prev@, next@));
                    assert(e == (transitions@[i as int].0@, transitions@[i as int].1@));
                }
                return Some((transitions[i].0.clone(), transitions[i].1.clone()));
            }
            proof {
                assert(pairs_of(transitions@)[i as int].1 == transitions@[i as int].1@);
            }
            i = i + 1;
        }
        proof {
            let tsv = self.transition_pairs();
            let kept = matching_from(tsv, prev@);
            if has_transition(tsv, prev@, next@) {
                let j = choose|j: int| 0 <= j < tsv.len() && trans_matches(tsv[j], prev@, next@);
                assert(source_pred(prev@)(tsv[j]));
                tsv.lemma_filter_contains(source_pred(prev@), j);
                let k = choose|k: int| 0 <= k < kept.len() && kept[k] == tsv[j];
                assert(kept[k].1 == next@);
                assert(false);
            }
        }
        None
    }

    /// Requests a move from the current state to the state with ID `next`.
    ///
    /// The request is validated in two steps, in this order: a declared
    /// transition must authorize the move from the current state (else the
    /// request fails with `NoTransition`), and then the destination must be
    /// a declared state (else it fails with `NoState`). On success the
    /// machine enters `next`, the observer, if one is attached, is notified
    /// once with the new snapshot, and a copy of the snapshot is returned. A
    /// failed request leaves the machine exactly as it was.
    pub fn transition(&mut self, next: &str) -> (r: Result<FiniteState, Error>)
        ensures
            final(self).state_ids() == old(self).state_ids(),
            final(self).transition_pairs() == old(self).transition_pairs(),
            final(self).receiver_ref() == old(self).receiver_ref(),
            !has_transition(old(self).transition_pairs(), old(self).current_id(), next@) ==> ({
                &&& final(self).current_id() == old(self).current_id()
                &&& r matches Err(Error::NoTransition(c, n)) && c@ == old(self).current_id()
                    && n@ == next@
            }),
            has_transition(old(self).transition_pairs(), old(self).current_id(), next@)
                && !has_state(old(self).state_ids(), next@) ==> ({
                &&& final(self).current_id() == old(self).current_id()
                &&& r matches Err(Error::NoState(n)) && n@ == next@
            }),
            transition_allowed(
                old(self).state_ids(),
                old(self).transition_pairs(),
                old(self).current_id(),
                next@,
            ) ==> ({
                &&& final(self).current_id() == next@
                &&& r matches Ok(fs) && fs.id@ == next@
            }),
    {
        match self.get_transition(self.current_state.id.as_str(), next) {
            None => Err(
                Error::NoTransition(self.current_state.id.clone(), next.to_owned()),
            ),
            Some(_transition) => {
                match self.get_state(next) {
                    None => Err(Error::NoState(next.to_owned())),
                    Some(state) => {
                        let snapshot = FiniteState::new(state);
                        self.current_state = snapshot;
                        match self.receiver {
                            None => {},
                            Some(receiver) => {
                                receiver.receive_state(&self.current_state);
                            },
                        }
                        Ok(FiniteState { id: self.current_state.id.clone() })
                    },
                }
            },
        }
    }
}

/// Appending one transition to a list extends its applicable-from-`cur` part
/// by that transition exactly when the transition's source applies.
proof fn lemma_matching_from_push(
    ts: Seq<(Seq<char>, Seq<char>)>,
    cur: Seq<char>,
    t: (Seq<char>, Seq<char>),
)
    ensures
        matching_from(ts.push(t), cur) == if source_matches(t.0, cur) {
            matching_from(ts, cur).push(t)
        } else {
            matching_from(ts, cur)
        },
{
    reveal(Seq::filter);
    assert(ts.push(t).drop_last() =~= ts);
    assert(ts.push(t).last() == t);
}

/// The first entry of the applicable-from-`cur` list whose destination is
/// `next` comes from the first declared transition matching the request:
/// filtering by source keeps declaration order, so position `k` in the
/// filtered list, first there with destination `next`, names the first
/// declared transition that authorizes the move.
proof fn lemma_first_in_filtered_is_first_match(
    ts: Seq<(Seq<char>, Seq<char>)>,
    cur: Seq<char>,
    next: Seq<char>,
    k: int,
)
    requires
        0 <= k < matching_from(ts, cur).len(),
        matching_from(ts, cur)[k].1 == next,
        forall|m: int| 0 <= m < k ==> matching_from(ts, cur)[m].1 != next,
    ensures
        exists|i: int| is_first_match(ts, cur, next, i) && ts[i] == matching_from(ts, cur)[k],
    decreases ts.len(),
{
    reveal(Seq::filter);
    let pred = source_pred(cur);
    let f = ts.filter(pred);
    let s1 = ts.drop_last();
    let f1 = s1.filter(pred);
    if pred(ts.last()) {
        assert(f == f1.push(ts.last()));
        if k < f1.len() {
            assert(forall|m: int| 0 <= m < k ==> f1[m] == f[m]);
            lemma_first_in_filtered_is_first_match(s1, cur, next, k);
            let i = choose|i: int| is_first_match(s1, cur, next, i) && s1[i] == f1[k];
            assert(s1[i] == ts[i]);
            assert(forall|j: int| 0 <= j < i ==> s1[j] == ts[j]);
            assert(is_first_match(ts, cur, next, i) && ts[i] == f[k]);
        } else {
            let i = ts.len() - 1;
            assert(f[k] == ts.last());
            assert(trans_matches(ts[i], cur, next));
            assert forall|j: int| 0 <= j < i implies !trans_matches(ts[j], cur, next) by {
                if trans_matches(ts[j], cur, next) {
                    assert(s1[j] == ts[j]);
                    assert(pred(s1[j]));
                    s1.lemma_filter_contains(pred, j);
                    let m = choose|m: int| 0 <= m < f1.len() && f1[m] == s1[j];
                    assert(f[m] == f1[m]);
                    assert(f[m].1 == next);
                }
            }
            assert(is_first_match(ts, cur, next, i) && ts[i] == f[k]);
        }
    } else {
        assert(f == f1);
        lemma_first_in_filtered_is_first_match(s1, cur, next, k);
        let i = choose|i: int| is_first_match(s1, cur, next, i) && s1[i] == f1[k];
        assert(s1[i] == ts[i]);
        assert(forall|j: int| 0 <= j < i ==> s1[j] == ts[j]);
        assert(is_first_match(ts, cur, next, i) && ts[i] == f[k]);
    }
}

/// When no declared transition's source applies from `cur`, no move from
/// `cur` is authorized at all.
proof fn lemma_no_source_no_transition(
    ts: Seq<(Seq<char>, Seq<char>)>,
    cur: Seq<char>,
    next: Seq<char>,
)
    requires
        matching_from(ts, cur).len() == 0,
    ensures
        !has_transition(ts, cur, next),
{
    if has_transition(ts, cur, next) {
        let j = choose|j: int| 0 <= j < ts.len() && trans_matches(ts[j], cur, next);
        assert(source_pred(cur)(ts[j]));
        ts.lemma_filter_contains(source_pred(cur), j);
    }
}

/// Law: a state declared under a legal ID is found by a destination lookup
/// afterwards. For a non-reserved `id`, `Setup::add_state` succeeds and
/// appends `id` to the declared IDs (its contract), a declared-ID sequence
/// extended with `id` always satisfies `has_state` for `id` (this lemma),
/// and the destination lookup returns a state if and only if `has_state`
/// holds (the lookup's contract) — so the freshly declared state is found.
pub proof fn lemma_added_state_is_found(ids: Seq<Seq<char>>, id: Seq<char>)
    ensures
        has_state(ids.push(id), id),
{
    assert(ids.push(id)[ids.len() as int] == id);
}

/// Law: from the initial pseudo-state, only an explicit rule whose source is
/// the initial pseudo-state ID can authorize a move; a wildcard rule for the
/// same destination never fires there.
pub proof fn lemma_initial_needs_explicit_rule(
    ts: Seq<(Seq<char>, Seq<char>)>,
    next: Seq<char>,
)
    ensures
        has_transition(ts, INITIAL@, next) <==> (exists|i: int|
            0 <= i < ts.len() && ts[i].0 == INITIAL@ && ts[i].1 == next),
{
    if has_transition(ts, INITIAL@, next) {
        let i = choose|i: int| 0 <= i < ts.len() && trans_matches(ts[i], INITIAL@, next);
        assert(ts[i].0 == INITIAL@ && ts[i].1 == next);
    }
    if exists|i: int| 0 <= i < ts.len() && ts[i].0 == INITIAL@ && ts[i].1 == next {
        let i = choose|i: int| 0 <= i < ts.len() && ts[i].0 == INITIAL@ && ts[i].1 == next;
        assert(trans_matches(ts[i], INITIAL@, next));
    }
}

/// Law: failure is idempotent. By `StateMachine::transition`'s contract a
/// refused request leaves the current state and the declared vocabulary
/// untouched, and which refusal a request meets is a function of that
/// unchanged data alone: exactly one of the two refusal conditions holds, so
/// repeating the same refused request meets the same refusal, every time.
pub proof fn lemma_refusal_is_repeatable(
    ids: Seq<Seq<char>>,
    ts: Seq<(Seq<char>, Seq<char>)>,
    cur: Seq<char>,
    cur_after: Seq<char>,
    next: Seq<char>,
)
    requires
        !transition_allowed(ids, ts, cur, next),
        cur_after == cur,
    ensures
        ({
            let first_no_transition = !has_transition(ts, cur, next);
            let first_no_state = has_transition(ts, cur, next) && !has_state(ids, next);
            let again_no_transition = !has_transition(ts, cur_after, next);
            let again_no_state = has_transition(ts, cur_after, next) && !has_state(ids, next);
            &&& !transition_allowed(ids, ts, cur_after, next)
            &&& again_no_transition == first_no_transition
            &&& again_no_state == first_no_state
            &&& first_no_transition || first_no_state
            &&& !(first_no_transition && first_no_state)
        }),
{
}

} // verus!
