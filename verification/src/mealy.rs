//! The Mealy-style automaton: the one concrete realization of [`FSM`].

use vstd::prelude::*;

use crate::{clone_value, fsm_domain, value_semantics, values_equal};
use crate::{Alphabet, State, StateRole, UnknownStateError, FSM};

verus! {

/// The composite key of a transition-table entry: `(source state, input)`.
#[derive(Debug, Hash, PartialEq, Eq)]
pub struct TransitionKey<K1, K2>(pub (K1, K2));

/// The composite value of a transition-table entry:
/// `(destination state, output)`.
#[derive(Debug, PartialEq, Eq)]
pub struct TransitionValue<V1, V2>(pub (V1, V2));

/// The transition table, stored as an association list with unique keys.
#[derive(Debug)]
pub struct TransitionMap<I: Alphabet, O: Alphabet, S: State>(
    pub(crate) Vec<(TransitionKey<S, I>, TransitionValue<S, O>)>,
);

/// A transition-table entry reduced to plain pairs:
/// `((source, input), (destination, output))`.
pub open spec fn entry_model<I, O, S>(e: (TransitionKey<S, I>, TransitionValue<S, O>)) -> (
    (S, I),
    (S, O),
) {
    ((((e.0).0).0, ((e.0).0).1), (((e.1).0).0, ((e.1).0).1))
}

/// First-match lookup in an association list.
pub open spec fn lookup<K, V>(entries: Seq<(K, V)>, key: K) -> Option<V>
    decreases entries.len(),
{
    if entries.len() == 0 {
        None
    } else if entries[0].0 == key {
        Some(entries[0].1)
    } else {
        lookup(entries.drop_first(), key)
    }
}

/// The map an association list denotes under first-match lookup.
pub open spec fn table_of<K, V>(entries: Seq<(K, V)>) -> Map<K, V> {
    Map::new(|k: K| lookup(entries, k) is Some, |k: K| lookup(entries, k)->Some_0)
}

/// No two entries share a key.
pub open spec fn unique_keys<K, V>(entries: Seq<(K, V)>) -> bool {
    forall|i: int, j: int| 0 <= i < j < entries.len() ==> entries[i].0 != entries[j].0
}

/// A match at `i` behind a match-free prefix is what first-match lookup
/// returns.
proof fn lemma_lookup_first_match<K, V>(entries: Seq<(K, V)>, key: K, i: int)
    requires
        0 <= i < entries.len(),
        entries[i].0 == key,
        forall|j: int| 0 <= j < i ==> entries[j].0 != key,
    ensures
        lookup(entries, key) == Some(entries[i].1),
    decreases i,
{
    if i > 0 {
        lemma_lookup_first_match(entries.drop_first(), key, i - 1);
    }
}

/// Lookup of a key no entry carries finds nothing.
proof fn lemma_lookup_none<K, V>(entries: Seq<(K, V)>, key: K)
    requires
        forall|j: int| 0 <= j < entries.len() ==> entries[j].0 != key,
    ensures
        lookup(entries, key) is None,
    decreases entries.len(),
{
    if entries.len() > 0 {
        lemma_lookup_none(entries.drop_first(), key);
    }
}

/// Appending an entry does not disturb lookups of other keys.
proof fn lemma_lookup_push_other<K, V>(entries: Seq<(K, V)>, e: (K, V), key: K)
    requires
        key != e.0,
    ensures
        lookup(entries.push(e), key) == lookup(entries, key),
    decreases entries.len(),
{
    if entries.len() == 0 {
        assert(entries.push(e).drop_first() =~= entries);
    } else {
        assert(entries.push(e).drop_first() =~= entries.drop_first().push(e));
        lemma_lookup_push_other(entries.drop_first(), e, key);
    }
}

/// Replacing one entry does not disturb lookups of keys that match neither
/// the old entry there nor the new one.
proof fn lemma_lookup_update_other<K, V>(entries: Seq<(K, V)>, i: int, e: (K, V), key: K)
    requires
        0 <= i < entries.len(),
        key != entries[i].0,
        key != e.0,
    ensures
        lookup(entries.update(i, e), key) == lookup(entries, key),
    decreases entries.len(),
{
    if i == 0 {
        assert(entries.update(0, e).drop_first() =~= entries.drop_first());
    } else {
        assert(entries.update(i, e).drop_first() =~= entries.drop_first().update(i - 1, e));
        lemma_lookup_update_other(entries.drop_first(), i - 1, e, key);
    }
}

/// A found value sits in some entry carrying the looked-up key.
proof fn lemma_lookup_some_index<K, V>(entries: Seq<(K, V)>, key: K)
    requires
        lookup(entries, key) is Some,
    ensures
        exists|i: int|
            0 <= i < entries.len() && entries[i].0 == key && entries[i].1 == lookup(
                entries,
                key,
            )->Some_0,
    decreases entries.len(),
{
    if entries.len() > 0 && entries[0].0 != key {
        lemma_lookup_some_index(entries.drop_first(), key);
        let i = choose|i: int|
            0 <= i < entries.drop_first().len() && entries.drop_first()[i].0 == key
                && entries.drop_first()[i].1 == lookup(entries.drop_first(), key)->Some_0;
        assert(entries[i + 1].0 == key && entries[i + 1].1 == lookup(entries, key)->Some_0);
    }
}

/// Every element of `a` also occurs in `b`.
pub open spec fn seq_covers<T>(a: Seq<T>, b: Seq<T>) -> bool {
    forall|i: int| 0 <= i < a.len() ==> b.contains(a[i])
}

/// Every entry of `a` is found, with the same value, by lookup in `b`.
pub open spec fn table_covers<K, V>(a: Seq<(K, V)>, b: Seq<(K, V)>) -> bool {
    forall|i: int| 0 <= i < a.len() ==> lookup(b, a[i].0) == Some(a[i].1)
}

/// The map obtained by inserting an association list's entries in order,
/// each overwriting any earlier entry with its key.
pub open spec fn fold_table<K, V>(entries: Seq<(K, V)>) -> Map<K, V>
    decreases entries.len(),
{
    if entries.len() == 0 {
        Map::empty()
    } else {
        fold_table(entries.drop_last()).insert(entries.last().0, entries.last().1)
    }
}

/// The error that replaying `entries` against the state set `known`
/// reports: the first transition endpoint missing from `known`, an origin
/// checked before its destination.
pub open spec fn decode_error<I, O, S>(entries: Seq<((S, I), (S, O))>, known: Set<S>) -> UnknownStateError<S>
    decreases entries.len(),
{
    if entries.len() == 0 {
        arbitrary()
    } else if !known.contains((entries[0].0).0) {
        UnknownStateError { state: (entries[0].0).0, role: StateRole::Origin }
    } else if !known.contains((entries[0].1).0) {
        UnknownStateError { state: (entries[0].1).0, role: StateRole::Destination }
    } else {
        decode_error(entries.drop_first(), known)
    }
}

/// Extending a prefix by one element extends the prefix's set by it.
proof fn lemma_take_to_set_step<T>(s: Seq<T>, i: int)
    requires
        0 <= i < s.len(),
    ensures
        s.take(i + 1).to_set() == s.take(i).to_set().insert(s[i]),
{
    assert forall|y: T| s.take(i + 1).to_set().contains(y) implies s.take(i).to_set().insert(
        s[i],
    ).contains(y) by {
        let j = choose|j: int| 0 <= j < s.take(i + 1).len() && #[trigger] s.take(i + 1)[j] == y;
        if j < i {
            assert(s.take(i)[j] == y);
            assert(s.take(i).contains(y));
        }
    }
    assert forall|y: T| s.take(i).to_set().insert(s[i]).contains(y) implies s.take(
        i + 1,
    ).to_set().contains(y) by {
        if s.take(i).contains(y) {
            let j = choose|j: int| 0 <= j < s.take(i).len() && #[trigger] s.take(i)[j] == y;
            assert(s.take(i + 1)[j] == y);
        } else {
            assert(s.take(i + 1)[i] == y);
        }
        assert(s.take(i + 1).contains(y));
    }
    assert(s.take(i + 1).to_set() =~= s.take(i).to_set().insert(s[i]));
}

/// When every entry before `j` has both endpoints in `known` and entry `j`
/// has not, the reported error belongs to entry `j`.
proof fn lemma_decode_error_first<I, O, S>(entries: Seq<((S, I), (S, O))>, known: Set<S>, j: int)
    requires
        0 <= j < entries.len(),
        forall|t: int|
            0 <= t < j ==> known.contains(((#[trigger] entries[t]).0).0) && known.contains(
                (entries[t].1).0,
            ),
        !(known.contains((entries[j].0).0) && known.contains((entries[j].1).0)),
    ensures
        decode_error(entries, known) == (if !known.contains((entries[j].0).0) {
            UnknownStateError { state: (entries[j].0).0, role: StateRole::Origin }
        } else {
            UnknownStateError { state: (entries[j].1).0, role: StateRole::Destination }
        }),
    decreases j,
{
    if j > 0 {
        lemma_decode_error_first(entries.drop_first(), known, j - 1);
    }
}

/// With unique keys, replaying the entries in order builds exactly the map
/// that first-match lookup denotes.
proof fn lemma_fold_is_table<K, V>(entries: Seq<(K, V)>)
    requires
        unique_keys(entries),
    ensures
        fold_table(entries) == table_of(entries),
    decreases entries.len(),
{
    if entries.len() == 0 {
        assert forall|k: K| lookup(entries, k) is None by {
            lemma_lookup_none(entries, k);
        }
        assert(fold_table(entries) =~= table_of(entries));
    } else {
        let front = entries.drop_last();
        let e = entries.last();
        assert(front.push(e) =~= entries);
        lemma_fold_is_table(front);
        lemma_lookup_first_match(entries, e.0, entries.len() - 1);
        assert forall|k: K| k != e.0 implies lookup(entries, k) == lookup(front, k) by {
            lemma_lookup_push_other(front, e, k);
        }
        assert(table_of(entries) =~= table_of(front).insert(e.0, e.1));
    }
}

/// Linear membership scan.  For a value type, the result is pinned to
/// `Seq::contains`.
fn vec_contains<T: Clone + PartialEq>(v: &Vec<T>, x: &T) -> (r: bool)
    ensures
        value_semantics::<T>() ==> r == v@.contains(*x),
{
    let mut i: usize = 0;
    while i < v.len()
        invariant
            i <= v@.len(),
            value_semantics::<T>() ==> forall|j: int| 0 <= j < i ==> v@[j] != *x,
        decreases v@.len() - i,
    {
        if values_equal(&v[i], x) {
            proof {
                if value_semantics::<T>() {
                    assert(v@[i as int] == *x);
                }
            }
            return true;
        }
        i += 1;
    }
    false
}

impl<I: Alphabet, O: Alphabet, S: State> TransitionMap<I, O, S> {
    /// The table's entries as plain pairs, in storage order.
    pub closed spec fn entries(&self) -> Seq<((S, I), (S, O))> {
        self.0@.map_values(|e: (TransitionKey<S, I>, TransitionValue<S, O>)| entry_model(e))
    }

    /// Returns the index of the entry for `(*from, *input)`, if any.
    fn find(&self, from: &S, input: &I) -> (r: Option<usize>)
        ensures
            r matches Some(i) ==> 0 <= i < self.entries().len(),
            value_semantics::<I>() && value_semantics::<S>() ==> match r {
                Some(i) => {
                    &&& self.entries()[i as int].0 == (*from, *input)
                    &&& forall|j: int| 0 <= j < i ==> self.entries()[j].0 != (*from, *input)
                },
                None => forall|j: int|
                    0 <= j < self.entries().len() ==> self.entries()[j].0 != (*from, *input),
            },
    {
        let mut i: usize = 0;
        while i < self.0.len()
            invariant
                i <= self.0@.len(),
                value_semantics::<I>() && value_semantics::<S>() ==> forall|j: int|
                    0 <= j < i ==> self.entries()[j].0 != (*from, *input),
            decreases self.0@.len() - i,
        {
            let e = &self.0[i];
            if values_equal(&(((e.0).0).0), from) && values_equal(&(((e.0).0).1), input) {
                proof {
                    if value_semantics::<I>() && value_semantics::<S>() {
                        assert(self.entries()[i as int].0 == (*from, *input));
                    }
                }
                return Some(i);
            }
            proof {
                if value_semantics::<I>() && value_semantics::<S>() {
                    assert(self.entries()[i as int].0 != (*from, *input));
                }
            }
            i += 1;
        }
        None
    }

    /// Inserts `(from, input) -> (to, output)`, overwriting any entry
    /// already keyed by `(from, input)`.
    fn insert(&mut self, from: S, input: I, to: S, output: O)
        requires
            value_semantics::<I>(),
            value_semantics::<S>(),
            unique_keys(old(self).entries()),
        ensures
            unique_keys(final(self).entries()),
            table_of(final(self).entries()) == table_of(old(self).entries()).insert(
                (from, input),
                (to, output),
            ),
    {
        let idx = self.find(&from, &input);
        let ghost key = (from, input);
        let ghost val = (to, output);
        let ghost before = self.entries();
        let entry = (TransitionKey((from, input)), TransitionValue((to, output)));
        match idx {
            Some(i) => {
                self.0.set(i, entry);
                proof {
                    let after = self.entries();
                    assert(after =~= before.update(i as int, (key, val)));
                    assert(forall|j: int|
                        0 <= j < after.len() ==> after[j].0 == (if j == i as int {
                            key
                        } else {
                            before[j].0
                        }));
                    assert(forall|j: int| i < j < before.len() ==> before[j].0 != key);
                    lemma_lookup_first_match(after, key, i as int);
                    assert forall|k2: ((S, I))| k2 != key implies lookup(after, k2) == lookup(
                        before,
                        k2,
                    ) by {
                        lemma_lookup_update_other(before, i as int, (key, val), k2);
                    }
                    assert(table_of(after) =~= table_of(before).insert(key, val));
                }
            },
            None => {
                self.0.push(entry);
                proof {
                    let after = self.entries();
                    assert(after =~= before.push((key, val)));
                    lemma_lookup_first_match(after, key, before.len() as int);
                    assert forall|k2: ((S, I))| k2 != key implies lookup(after, k2) == lookup(
                        before,
                        k2,
                    ) by {
                        lemma_lookup_push_other(before, (key, val), k2);
                    }
                    assert(table_of(after) =~= table_of(before).insert(key, val));
                }
            },
        }
    }

    /// Checks that every entry of `self` is found, with an equal value, in
    /// `other`.
    fn covered_by(&self, other: &Self) -> (r: bool)
        ensures
            fsm_domain::<I, O, S>() ==> r == table_covers(self.entries(), other.entries()),
    {
        let mut i: usize = 0;
        while i < self.0.len()
            invariant
                i <= self.0@.len(),
                fsm_domain::<I, O, S>() ==> forall|j: int|
                    0 <= j < i ==> lookup(other.entries(), self.entries()[j].0) == Some(
                        self.entries()[j].1,
                    ),
            decreases self.0@.len() - i,
        {
            let e = &self.0[i];
            let ghost key = self.entries()[i as int].0;
            let idx = other.find(&(((e.0).0).0), &(((e.0).0).1));
            match idx {
                Some(k) => {
                    let oe = &other.0[k];
                    let dest_ok = values_equal(&(((e.1).0).0), &(((oe.1).0).0));
                    let out_ok = values_equal(&(((e.1).0).1), &(((oe.1).0).1));
                    proof {
                        if fsm_domain::<I, O, S>() {
                            assert(other.entries()[k as int].0 == key);
                            lemma_lookup_first_match(other.entries(), key, k as int);
                        }
                    }
                    if !(dest_ok && out_ok) {
                        proof {
                            if fsm_domain::<I, O, S>() {
                                assert(lookup(other.entries(), key) != Some(
                                    self.entries()[i as int].1,
                                ));
                            }
                        }
                        return false;
                    }
                    proof {
                        if fsm_domain::<I, O, S>() {
                            assert(lookup(other.entries(), key) == Some(
                                self.entries()[i as int].1,
                            ));
                        }
                    }
                },
                None => {
                    proof {
                        if fsm_domain::<I, O, S>() {
                            lemma_lookup_none(other.entries(), key);
                        }
                    }
                    return false;
                },
            }
            i += 1;
        }
        true
    }
}

/// Checks that every element of `a` occurs in `b`.
fn vec_covered<T: Clone + PartialEq>(a: &Vec<T>, b: &Vec<T>) -> (r: bool)
    ensures
        value_semantics::<T>() ==> r == seq_covers(a@, b@),
{
    let mut i: usize = 0;
    while i < a.len()
        invariant
            i <= a@.len(),
            value_semantics::<T>() ==> forall|j: int| 0 <= j < i ==> b@.contains(a@[j]),
        decreases a@.len() - i,
    {
        if !vec_contains(b, &a[i]) {
            return false;
        }
        i += 1;
    }
    true
}

/// The Mealy automaton: a registered state set, a transition table keyed by
/// `(state, input)`, and the state the machine is in right now.
#[derive(Debug)]
pub struct Mealy<I: Alphabet, O: Alphabet, S: State> {
    cur_state: S,
    states: Vec<S>,
    transitions: TransitionMap<I, O, S>,
}

impl<I: Alphabet, O: Alphabet, S: State> Mealy<I, O, S> {
    /// Builds an automaton whose state set holds exactly `initial_state`,
    /// which is also current, with an empty transition table.
    pub fn new(initial_state: S) -> (r: Self)
        requires
            fsm_domain::<I, O, S>(),
        ensures
            r.inv(),
            r.current() == initial_state,
            r.state_set() == Set::empty().insert(initial_state),
            r.table() == Map::<(S, I), (S, O)>::empty(),
    {
        let cur = clone_value(&initial_state);
        let mut states: Vec<S> = Vec::new();
        states.push(initial_state);
        let r = Mealy { cur_state: cur, states, transitions: TransitionMap(Vec::new()) };
        proof {
            assert(r.states@ =~= seq![initial_state]);
            assert(r.states@[0] == initial_state);
            assert(r.states@.contains(initial_state));
            assert(r.state_set() =~= Set::empty().insert(initial_state));
            assert(r.transitions.entries() =~= Seq::<((S, I), (S, O))>::empty());
            lemma_lookup_none(r.transitions.entries(), ((initial_state, arbitrary::<I>())));
            assert forall|k: (S, I)| !(#[trigger] r.table().dom().contains(k)) by {
                lemma_lookup_none(r.transitions.entries(), k);
            }
            assert(r.table() =~= Map::<(S, I), (S, O)>::empty());
        }
        r
    }
}

impl<I: Alphabet, O: Alphabet, S: State> FSM<I, O, S> for Mealy<I, O, S> {
    closed spec fn current(&self) -> S {
        self.cur_state
    }

    closed spec fn state_set(&self) -> Set<S> {
        self.states@.to_set()
    }

    closed spec fn table(&self) -> Map<(S, I), (S, O)> {
        table_of(self.transitions.entries())
    }

    closed spec fn inv(&self) -> bool {
        &&& self.states@.contains(self.cur_state)
        &&& forall|i: int, j: int|
            0 <= i < j < self.states@.len() ==> self.states@[i] != self.states@[j]
        &&& unique_keys(self.transitions.entries())
        &&& forall|k: (S, I)| #[trigger]
            self.table().dom().contains(k) ==> self.states@.contains(k.0) && self.states@.contains(
                self.table()[k].0,
            )
    }

    proof fn inv_properties(&self) {
    }

    fn add_state(&mut self, state: S) {
        let ghost before = self.states@;
        if !vec_contains(&self.states, &state) {
            self.states.push(state);
            proof {
                assert(self.states@ =~= before.push(state));
                assert forall|y: S| #[trigger]
                    self.states@.contains(y) <==> (before.contains(y) || y == state) by {
                    if self.states@.contains(y) {
                        let idx = choose|idx: int|
                            0 <= idx < self.states@.len() && self.states@[idx] == y;
                        if idx < before.len() {
                            assert(before[idx] == y);
                        }
                    }
                    if before.contains(y) {
                        let idx = choose|idx: int| 0 <= idx < before.len() && before[idx] == y;
                        assert(self.states@[idx] == y);
                    }
                    if y == state {
                        assert(self.states@[before.len() as int] == y);
                    }
                }
                assert(self.state_set() =~= before.to_set().insert(state));
                assert(forall|idx: int| 0 <= idx < before.len() ==> before[idx] != state);
                assert(forall|i: int, j: int|
                    0 <= i < j < self.states@.len() ==> self.states@[i] != self.states@[j]);
                assert(self.states@.contains(self.cur_state));
                assert forall|k: (S, I)| #[trigger]
                    self.table().dom().contains(k) implies self.states@.contains(k.0)
                    && self.states@.contains(self.table()[k].0) by {
                    assert(old(self).table().dom().contains(k));
                    assert(before.contains(k.0));
                    assert(before.contains(self.table()[k].0));
                }
                assert(self.inv());
            }
        } else {
            proof {
                assert(self.state_set() =~= before.to_set().insert(state));
                assert(self.inv());
            }
        }
    }

    fn try_add_transition(&mut self, from: S, input: I, to: S, output: O) -> (r: Result<
        (),
        UnknownStateError<S>,
    >) {
        if !vec_contains(&self.states, &from) {
            return Err(UnknownStateError { state: from, role: StateRole::Origin });
        }
        if !vec_contains(&self.states, &to) {
            return Err(UnknownStateError { state: to, role: StateRole::Destination });
        }
        let ghost key = (from, input);
        let ghost val = (to, output);
        self.transitions.insert(from, input, to, output);
        proof {
            assert(self.table() == old(self).table().insert(key, val));
            assert forall|k: (S, I)| #[trigger]
                self.table().dom().contains(k) implies self.states@.contains(k.0)
                && self.states@.contains(self.table()[k].0) by {
                if k == key {
                    assert(self.table()[k] == val);
                } else {
                    assert(old(self).table().dom().contains(k));
                    assert(self.table()[k] == old(self).table()[k]);
                }
            }
            assert(self.inv());
        }
        Ok(())
    }

    fn try_set_state(&mut self, state: S) -> (r: Result<(), UnknownStateError<S>>) {
        if vec_contains(&self.states, &state) {
            self.cur_state = state;
            proof {
                assert(forall|k: (S, I)| #[trigger]
                    self.table().dom().contains(k) ==> self.states@.contains(k.0)
                        && self.states@.contains(self.table()[k].0));
                assert(self.inv());
            }
            Ok(())
        } else {
            Err(UnknownStateError { state: state, role: StateRole::Target })
        }
    }

    fn state(&self) -> (r: S) {
        clone_value(&self.cur_state)
    }

    fn next(&mut self, input: I) -> (r: Option<O>) {
        let ghost key = (self.cur_state, input);
        let idx = self.transitions.find(&self.cur_state, &input);
        match idx {
            Some(i) => {
                proof {
                    lemma_lookup_first_match(self.transitions.entries(), key, i as int);
                    assert(self.table().dom().contains(key));
                    assert(self.table()[key] == self.transitions.entries()[i as int].1);
                }
                let e = &self.transitions.0[i];
                let to = clone_value(&(((e.1).0).0));
                let out = clone_value(&(((e.1).0).1));
                self.cur_state = to;
                proof {
                    assert(self.cur_state == old(self).table()[key].0);
                    assert(self.states@.contains(self.cur_state));
                    assert(self.inv());
                }
                Some(out)
            },
            None => {
                proof {
                    lemma_lookup_none(self.transitions.entries(), key);
                    assert(!self.table().dom().contains(key));
                    assert(self.inv());
                }
                None
            },
        }
    }
}

/// What `==` on two automata decides: the same current state, mutual
/// coverage of the state vectors, and mutual coverage of the transition
/// entries.  On well-formed automata this is exactly model equality; see
/// [`lemma_eq_is_model_eq`].
pub closed spec fn mealy_eq_spec<I: Alphabet, O: Alphabet, S: State>(
    a: &Mealy<I, O, S>,
    b: &Mealy<I, O, S>,
) -> bool {
    &&& a.cur_state == b.cur_state
    &&& seq_covers(a.states@, b.states@)
    &&& seq_covers(b.states@, a.states@)
    &&& table_covers(a.transitions.entries(), b.transitions.entries())
    &&& table_covers(b.transitions.entries(), a.transitions.entries())
}

impl<I: Alphabet, O: Alphabet, S: State> PartialEq for Mealy<I, O, S> {
    /// Value equality: same current state, same state set, same transition
    /// table.
    fn eq(&self, other: &Self) -> (r: bool) {
        let cur_ok = values_equal(&self.cur_state, &other.cur_state);
        let st1 = vec_covered(&self.states, &other.states);
        let st2 = vec_covered(&other.states, &self.states);
        let t1 = self.transitions.covered_by(&other.transitions);
        let t2 = other.transitions.covered_by(&self.transitions);
        cur_ok && st1 && st2 && t1 && t2
    }
}

impl<I: Alphabet, O: Alphabet, S: State> vstd::std_specs::cmp::PartialEqSpecImpl for Mealy<I, O, S> {
    open spec fn obeys_eq_spec() -> bool {
        fsm_domain::<I, O, S>()
    }

    open spec fn eq_spec(&self, other: &Self) -> bool {
        mealy_eq_spec(self, other)
    }
}

/// The equality that `==` decides agrees, on well-formed automata, with
/// equality of the model: same current state, same state set, and same
/// transition table.
pub proof fn lemma_eq_is_model_eq<I: Alphabet, O: Alphabet, S: State>(
    a: &Mealy<I, O, S>,
    b: &Mealy<I, O, S>,
)
    requires
        a.inv(),
        b.inv(),
    ensures
        mealy_eq_spec(a, b) <==> {
            &&& a.current() == b.current()
            &&& a.state_set() == b.state_set()
            &&& a.table() == b.table()
        },
{
    let ae = a.transitions.entries();
    let be = b.transitions.entries();
    if mealy_eq_spec(a, b) {
        assert(a.state_set() =~= b.state_set());
        assert forall|k: (S, I)| lookup(ae, k) == lookup(be, k) by {
            if lookup(ae, k) is Some {
                lemma_lookup_some_index(ae, k);
                let i = choose|i: int|
                    0 <= i < ae.len() && ae[i].0 == k && ae[i].1 == lookup(ae, k)->Some_0;
                assert(lookup(be, ae[i].0) == Some(ae[i].1));
            } else if lookup(be, k) is Some {
                lemma_lookup_some_index(be, k);
                let i = choose|i: int|
                    0 <= i < be.len() && be[i].0 == k && be[i].1 == lookup(be, k)->Some_0;
                assert(lookup(ae, be[i].0) == Some(be[i].1));
            }
        }
        assert(a.table() =~= b.table());
    }
    if a.current() == b.current() && a.state_set() == b.state_set() && a.table() == b.table() {
        assert forall|i: int| 0 <= i < a.states@.len() implies b.states@.contains(
            a.states@[i],
        ) by {
            assert(a.states@.contains(a.states@[i]));
            assert(a.state_set().contains(a.states@[i]));
        }
        assert forall|i: int| 0 <= i < b.states@.len() implies a.states@.contains(
            b.states@[i],
        ) by {
            assert(b.states@.contains(b.states@[i]));
            assert(b.state_set().contains(b.states@[i]));
        }
        assert forall|i: int| 0 <= i < ae.len() implies lookup(be, ae[i].0) == Some(ae[i].1) by {
            lemma_lookup_first_match(ae, ae[i].0, i);
            assert(a.table().dom().contains(ae[i].0));
            assert(b.table()[ae[i].0] == ae[i].1);
        }
        assert forall|i: int| 0 <= i < be.len() implies lookup(ae, be[i].0) == Some(be[i].1) by {
            lemma_lookup_first_match(be, be[i].0, i);
            assert(b.table().dom().contains(be[i].0));
            assert(a.table()[be[i].0] == be[i].1);
        }
        assert(mealy_eq_spec(a, b));
    }
}

/// The structured document an automaton serializes to: its complete state
/// as plain vectors, with each transition kept as one composite key and one
/// composite value so the pairing survives any flat key/value format.
#[derive(Debug)]
pub struct MealyDoc<I: Alphabet, O: Alphabet, S: State> {
    /// The state the automaton was in.
    pub current: S,
    /// The registered states.
    pub states: Vec<S>,
    /// The transition table's entries.
    pub transitions: Vec<(TransitionKey<S, I>, TransitionValue<S, O>)>,
}

impl<I: Alphabet, O: Alphabet, S: State> MealyDoc<I, O, S> {
    /// The document's transition entries as plain pairs.
    pub open spec fn model_entries(&self) -> Seq<((S, I), (S, O))> {
        self.transitions@.map_values(|e: (TransitionKey<S, I>, TransitionValue<S, O>)| entry_model(e))
    }

    /// The states a decoder knows: the listed ones and the current one.
    pub open spec fn known_states(&self) -> Set<S> {
        self.states@.to_set().insert(self.current)
    }

    /// Whether every transition endpoint names a known state, so that
    /// decoding succeeds.
    pub open spec fn valid(&self) -> bool {
        forall|i: int|
            0 <= i < self.model_entries().len() ==> self.known_states().contains(
                ((#[trigger] self.model_entries()[i]).0).0,
            ) && self.known_states().contains((self.model_entries()[i].1).0)
    }
}

/// The document `d` is the one written for the automaton `m`: the same
/// current state, the same state vector, and the same transition entries.
pub closed spec fn encodes<I: Alphabet, O: Alphabet, S: State>(
    m: &Mealy<I, O, S>,
    d: &MealyDoc<I, O, S>,
) -> bool {
    &&& d.current == m.cur_state
    &&& d.states@ == m.states@
    &&& d.model_entries() == m.transitions.entries()
}

/// The automaton `m` is what decoding the document `d` yields: well-formed,
/// positioned at the document's current state, knowing its states, with its
/// entries replayed in order.
pub open spec fn decodes_to<I: Alphabet, O: Alphabet, S: State>(
    d: &MealyDoc<I, O, S>,
    m: &Mealy<I, O, S>,
) -> bool {
    &&& m.inv()
    &&& m.current() == d.current
    &&& m.state_set() == d.known_states()
    &&& m.table() == fold_table(d.model_entries())
}

impl<I: Alphabet, O: Alphabet, S: State> Mealy<I, O, S> {
    /// Writes the automaton's complete state into a structured document.
    pub fn to_doc(&self) -> (r: MealyDoc<I, O, S>)
        requires
            fsm_domain::<I, O, S>(),
        ensures
            encodes(self, &r),
    {
        let current = clone_value(&self.cur_state);
        let mut states: Vec<S> = Vec::new();
        let mut i: usize = 0;
        while i < self.states.len()
            invariant
                fsm_domain::<I, O, S>(),
                i <= self.states@.len(),
                states@.len() == i,
                forall|j: int| 0 <= j < i ==> states@[j] == self.states@[j],
            decreases self.states@.len() - i,
        {
            states.push(clone_value(&self.states[i]));
            i += 1;
        }
        let mut transitions: Vec<(TransitionKey<S, I>, TransitionValue<S, O>)> = Vec::new();
        let mut j: usize = 0;
        while j < self.transitions.0.len()
            invariant
                fsm_domain::<I, O, S>(),
                j <= self.transitions.0@.len(),
                transitions@.len() == j,
                forall|t: int|
                    0 <= t < j ==> entry_model(#[trigger] transitions@[t]) == entry_model(
                        self.transitions.0@[t],
                    ),
            decreases self.transitions.0@.len() - j,
        {
            let e = &self.transitions.0[j];
            let from = clone_value(&(((e.0).0).0));
            let input = clone_value(&(((e.0).0).1));
            let to = clone_value(&(((e.1).0).0));
            let output = clone_value(&(((e.1).0).1));
            transitions.push((TransitionKey((from, input)), TransitionValue((to, output))));
            j += 1;
        }
        let r = MealyDoc { current, states, transitions };
        proof {
            assert(r.states@ =~= self.states@);
            assert(r.model_entries() =~= self.transitions.entries());
        }
        r
    }

    /// Rebuilds an automaton from a structured document, validating every
    /// transition endpoint against the document's states.  The document's
    /// entries are replayed in order, a later entry overwriting an earlier
    /// one with the same key; the first unknown endpoint aborts the decode
    /// with its error.
    pub fn from_doc(doc: MealyDoc<I, O, S>) -> (r: Result<Self, UnknownStateError<S>>)
        requires
            fsm_domain::<I, O, S>(),
        ensures
            r matches Ok(m) ==> doc.valid() && decodes_to(&doc, &m),
            r matches Err(e) ==> !doc.valid() && e == decode_error(
                doc.model_entries(),
                doc.known_states(),
            ),
    {
        let mut m = Mealy::<I, O, S>::new(clone_value(&doc.current));
        let mut i: usize = 0;
        proof {
            assert(m.state_set() =~= doc.states@.take(0).to_set().insert(doc.current));
        }
        while i < doc.states.len()
            invariant
                fsm_domain::<I, O, S>(),
                i <= doc.states@.len(),
                m.inv(),
                m.current() == doc.current,
                m.state_set() == doc.states@.take(i as int).to_set().insert(doc.current),
                m.table() == Map::<(S, I), (S, O)>::empty(),
            decreases doc.states@.len() - i,
        {
            m.add_state(clone_value(&doc.states[i]));
            proof {
                lemma_take_to_set_step(doc.states@, i as int);
                assert(m.state_set() =~= doc.states@.take(i + 1).to_set().insert(doc.current));
            }
            i += 1;
        }
        proof {
            assert(doc.states@.take(doc.states@.len() as int) =~= doc.states@);
            assert(m.state_set() == doc.known_states());
        }
        let mut j: usize = 0;
        proof {
            assert(doc.model_entries().take(0) =~= Seq::<((S, I), (S, O))>::empty());
            assert(m.table() =~= fold_table(doc.model_entries().take(0)));
        }
        while j < doc.transitions.len()
            invariant
                fsm_domain::<I, O, S>(),
                j <= doc.transitions@.len(),
                m.inv(),
                m.current() == doc.current,
                m.state_set() == doc.known_states(),
                m.table() == fold_table(doc.model_entries().take(j as int)),
                forall|t: int|
                    0 <= t < j ==> doc.known_states().contains(
                        ((#[trigger] doc.model_entries()[t]).0).0,
                    ) && doc.known_states().contains((doc.model_entries()[t].1).0),
            decreases doc.transitions@.len() - j,
        {
            let e = &doc.transitions[j];
            let from = clone_value(&(((e.0).0).0));
            let input = clone_value(&(((e.0).0).1));
            let to = clone_value(&(((e.1).0).0));
            let output = clone_value(&(((e.1).0).1));
            let ghost entry = doc.model_entries()[j as int];
            match m.try_add_transition(from, input, to, output) {
                Ok(()) => {
                    proof {
                        assert(doc.model_entries().take(j + 1).drop_last() =~= doc.model_entries().take(j as int));
                        assert(doc.model_entries().take(j + 1).last() == entry);
                        assert(m.table() == fold_table(doc.model_entries().take(j + 1)));
                    }
                    j += 1;
                },
                Err(err) => {
                    proof {
                        lemma_decode_error_first(
                            doc.model_entries(),
                            doc.known_states(),
                            j as int,
                        );
                        assert(!doc.valid());
                    }
                    return Err(err);
                },
            }
        }
        proof {
            assert(doc.model_entries().take(doc.transitions@.len() as int) =~= doc.model_entries());
            assert(doc.valid());
        }
        Ok(m)
    }
}

/// Round-trip law, first half: the document written for a well-formed
/// automaton is always accepted by the decoder, and describes the
/// automaton's exact model.
pub proof fn lemma_round_trip<I: Alphabet, O: Alphabet, S: State>(
    m: &Mealy<I, O, S>,
    d: &MealyDoc<I, O, S>,
)
    requires
        m.inv(),
        encodes(m, d),
    ensures
        d.valid(),
        d.current == m.current(),
        d.known_states() == m.state_set(),
        fold_table(d.model_entries()) == m.table(),
{
    let entries = m.transitions.entries();
    assert forall|i: int| 0 <= i < entries.len() implies m.state_set().contains(
        ((#[trigger] entries[i]).0).0,
    ) && m.state_set().contains((entries[i].1).0) by {
        lemma_lookup_first_match(entries, entries[i].0, i);
        assert(m.table().dom().contains(entries[i].0));
        assert(m.table()[entries[i].0] == entries[i].1);
    }
    assert(d.known_states() =~= m.state_set());
    lemma_fold_is_table(entries);
}

/// Round-trip law, second half: decoding the document written for a
/// well-formed automaton yields an automaton equal to it, under the
/// equality that `==` decides.
pub proof fn lemma_round_trip_eq<I: Alphabet, O: Alphabet, S: State>(
    m: &Mealy<I, O, S>,
    d: &MealyDoc<I, O, S>,
    decoded: &Mealy<I, O, S>,
)
    requires
        m.inv(),
        encodes(m, d),
        decodes_to(d, decoded),
    ensures
        mealy_eq_spec(decoded, m),
        mealy_eq_spec(m, decoded),
{
    lemma_round_trip(m, d);
    lemma_eq_is_model_eq(decoded, m);
    lemma_eq_is_model_eq(m, decoded);
}

} // verus!
