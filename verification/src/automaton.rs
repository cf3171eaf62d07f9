//! The automaton of the scanner.
//!
//! The graphs of the tokens make a nondeterministic automaton. Its places
//! are the nodes that match a character; matching one leads to the nodes
//! that can match the next character and, where the token can end, to the
//! end mark of the token. A state of the deterministic automaton stands for
//! a set of places and end marks, and two states never stand for the same
//! set.

use crate::dfa::{CharSet, MAX_CHAR};
use crate::first::{lemma_union_upto_more, lemma_union_upto_none, union_upto};
use crate::tab::{bits, holds_nothing, sets_of, State, Transition};
use crate::tab::{bitset_clone, bitset_contains, bitset_eq, bitset_new};
use crate::tab::bitset_union_with;
use bit_set::BitSet;
use vstd::prelude::*;

verus! {

/// A nondeterministic automaton: for each place the characters that it
/// matches and where matching one leads, the places to start from, and the
/// number of tokens. The end mark of the token `t` is the number of places
/// plus `t`.
pub struct Nfa {
    pub chars: Seq<Set<int>>,
    pub next: Seq<Set<usize>>,
    pub start: Set<usize>,
    pub tokens: nat,
}

/// Where the place `p` leads on the character `c` from the set `from`:
/// nowhere unless the place is in the set and matches the character.
pub open spec fn step_part(nfa: Nfa, from: Set<usize>, c: int, p: int) -> Set<usize> {
    if from.contains(p as usize) && nfa.chars[p].contains(c) {
        nfa.next[p]
    } else {
        Set::empty()
    }
}

/// Where the automaton can be after the character `c` if it was at one of
/// `from` before.
pub open spec fn step(nfa: Nfa, from: Set<usize>, c: int) -> Set<usize> {
    union_upto(|p: int| step_part(nfa, from, c, p), nfa.chars.len() as int)
}

/// The end mark of the token `t`.
pub open spec fn end_mark(nfa: Nfa, t: int) -> usize {
    (nfa.chars.len() + t) as usize
}

/// Whether `accept` is the token that ends at `items`: the first of the
/// tokens whose end marks are among `items`, or none if there is none.
pub open spec fn accept_ok(nfa: Nfa, items: Set<usize>, accept: Option<usize>) -> bool {
    match accept {
        Some(t) => t < nfa.tokens && items.contains(end_mark(nfa, t as int)) && forall|u: int|
            0 <= u < t ==> !items.contains(#[trigger] end_mark(nfa, u)),
        None => forall|u: int|
            0 <= u < nfa.tokens ==> !items.contains(#[trigger] end_mark(nfa, u)),
    }
}

/// Whether the transitions are in ascending order of their characters and
/// no character has two of them.
pub open spec fn deterministic(trans: Seq<Transition>) -> bool {
    &&& forall|k: int|
        0 <= k < trans.len() ==> 0 <= (#[trigger] trans[k]).from <= trans[k].to <= MAX_CHAR
    &&& forall|j: int, k: int|
        0 <= j < k < trans.len() ==> (#[trigger] trans[j]).to < (#[trigger] trans[k]).from
}

/// Where the transitions lead on the character `c`, if anywhere.
pub open spec fn target_at(trans: Seq<Transition>, c: int) -> Option<usize>
    decreases trans.len(),
{
    if trans.len() == 0 {
        None
    } else if trans.last().from <= c <= trans.last().to {
        Some(trans.last().target)
    } else {
        target_at(trans.drop_last(), c)
    }
}

/// Whether the transitions `trans` of a state that stands for `from` are
/// right on the character `c`: they lead to the state that stands for
/// where the automaton can be after `c`, and nowhere if it can be nowhere.
/// `sets` says what each state stands for.
pub open spec fn moves_ok(
    sets: Seq<Set<usize>>,
    trans: Seq<Transition>,
    nfa: Nfa,
    from: Set<usize>,
    c: int,
) -> bool {
    let to = step(nfa, from, c);
    match target_at(trans, c) {
        Some(t) => t < sets.len() && sets[t as int] == to && to != Set::<usize>::empty(),
        None => to == Set::<usize>::empty(),
    }
}

/// Whether no two of the sets are the same.
pub open spec fn distinct(sets: Seq<Set<usize>>) -> bool {
    forall|j: int, k: int| 0 <= j < k < sets.len() ==> sets[j] != sets[k]
}

/// Whether `more` starts with the sets of `sets`.
pub open spec fn extends(sets: Seq<Set<usize>>, more: Seq<Set<usize>>) -> bool {
    sets.len() <= more.len() && forall|i: int| 0 <= i < sets.len() ==> more[i] == sets[i]
}

/// What each state stands for.
pub open spec fn item_sets(states: Seq<State>) -> Seq<Set<usize>> {
    Seq::new(states.len(), |i: int| bits(states[i].items))
}

/// Whether one of the transitions leads to the state `t`.
pub open spec fn target_of(trans: Seq<Transition>, t: int) -> bool {
    exists|i: int| 0 <= i < trans.len() && (#[trigger] trans[i]).target == t
}

/// Whether a state with a smaller number leads to the state `t`.
pub open spec fn entered(tables: Seq<Seq<Transition>>, t: int) -> bool {
    exists|j: int| 0 <= j < t && j < tables.len() && target_of(#[trigger] tables[j], t)
}

/// What each of the lists holds.
pub open spec fn lists_of(tables: Seq<Vec<Transition>>) -> Seq<Seq<Transition>> {
    Seq::new(tables.len(), |i: int| tables[i]@)
}

/// The transitions of each state.
pub open spec fn tables_of(states: Seq<State>) -> Seq<Seq<Transition>> {
    Seq::new(states.len(), |i: int| states[i].trans@)
}

/// Whether the states are the deterministic automaton of `nfa`: the first
/// state stands for the start of `nfa`, no two states stand for the same
/// set, every state but the first is led to from a state before it, and
/// every state has the right transitions on every character and ends the
/// right token.
pub open spec fn determinizes(states: Seq<State>, nfa: Nfa) -> bool {
    &&& states.len() > 0
    &&& bits(states[0].items) == nfa.start
    &&& distinct(item_sets(states))
    &&& forall|t: int| 0 < t < states.len() ==> #[trigger] entered(tables_of(states), t)
    &&& forall|k: int|
        0 <= k < states.len() ==> deterministic((#[trigger] states[k]).trans@) && accept_ok(
            nfa,
            bits(states[k].items),
            states[k].accept,
        )
    &&& forall|k: int, c: int|
        0 <= k < states.len() && 0 <= c <= MAX_CHAR ==> #[trigger] moves_ok(
            item_sets(states),
            states[k].trans@,
            nfa,
            bits(states[k].items),
            c,
        )
}

/// In a deterministic list no two transitions take the same character.
pub proof fn lemma_deterministic_disjoint(trans: Seq<Transition>, j: int, k: int, c: int)
    requires
        deterministic(trans),
        0 <= j < trans.len(),
        0 <= k < trans.len(),
        j != k,
        trans[j].from <= c <= trans[j].to,
    ensures
        !(trans[k].from <= c <= trans[k].to),
{
    if j < k {
        assert(trans[j].to < trans[k].from);
    } else {
        assert(trans[k].to < trans[j].from);
    }
}

/// A transition at the end of the list takes its characters; the others
/// go where they went.
proof fn lemma_target_at_push(trans: Seq<Transition>, x: Transition, c: int)
    ensures
        target_at(trans.push(x), c) == if x.from <= c <= x.to {
            Some(x.target)
        } else {
            target_at(trans, c)
        },
{
    assert(trans.push(x).drop_last() =~= trans);
    assert(trans.push(x).last() == x);
}

/// Transitions that all end below `c` lead nowhere on `c`.
proof fn lemma_target_none_above(trans: Seq<Transition>, c: int)
    requires
        forall|j: int| 0 <= j < trans.len() ==> (#[trigger] trans[j]).to < c,
    ensures
        target_at(trans, c) is None,
    decreases trans.len(),
{
    if trans.len() > 0 {
        assert(trans.last() == trans[trans.len() - 1]);
        lemma_target_none_above(trans.drop_last(), c);
    }
}

/// Right transitions stay right when more states come.
proof fn lemma_moves_stay(
    sets: Seq<Set<usize>>,
    more: Seq<Set<usize>>,
    trans: Seq<Transition>,
    nfa: Nfa,
    from: Set<usize>,
    c: int,
)
    requires
        extends(sets, more),
        moves_ok(sets, trans, nfa, from, c),
    ensures
        moves_ok(more, trans, nfa, from, c),
{
}

/// Sets that agree member by member have the same members together.
proof fn lemma_union_upto_same(
    one: spec_fn(int) -> Set<usize>,
    other: spec_fn(int) -> Set<usize>,
    n: int,
)
    requires
        forall|i: int| 0 <= i < n ==> #[trigger] one(i) == other(i),
    ensures
        union_upto(one, n) == union_upto(other, n),
{
    assert forall|t: usize| union_upto(one, n).contains(t) == union_upto(other, n).contains(t) by {
        if union_upto(one, n).contains(t) {
            let i = choose|i: int| 0 <= i < n && (#[trigger] one(i)).contains(t);
            assert(other(i).contains(t));
        }
        if union_upto(other, n).contains(t) {
            let i = choose|i: int| 0 <= i < n && (#[trigger] other(i)).contains(t);
            assert(one(i).contains(t));
        }
    }
    assert(union_upto(one, n) =~= union_upto(other, n));
}

/// A nondeterministic automaton, as the builder keeps it.
pub struct NfaTable {
    pub chars: Vec<CharSet>,
    pub next: Vec<BitSet>,
    pub start: BitSet,
    pub tokens: usize,
}

impl View for NfaTable {
    type V = Nfa;

    open spec fn view(&self) -> Nfa {
        Nfa {
            chars: Seq::new(self.chars@.len(), |i: int| self.chars@[i]@),
            next: sets_of(self.next@),
            start: bits(self.start),
            tokens: self.tokens as nat,
        }
    }
}

/// The number of the state that stands for `target`, which joins the
/// states if none of them does yet.
fn find_or_add(sets: &mut Vec<BitSet>, target: BitSet) -> (t: usize)
    requires
        distinct(sets_of(old(sets)@)),
    ensures
        t < final(sets)@.len(),
        bits(final(sets)@[t as int]) == bits(target),
        extends(sets_of(old(sets)@), sets_of(final(sets)@)),
        distinct(sets_of(final(sets)@)),
        final(sets)@.len() == old(sets)@.len() || (final(sets)@.len() == old(sets)@.len() + 1
            && t == old(sets)@.len()),
{
    let mut k: usize = 0;
    while k < sets.len()
        invariant
            0 <= k <= sets@.len(),
            sets@ == old(sets)@,
            distinct(sets_of(sets@)),
            forall|j: int| 0 <= j < k ==> bits(sets@[j]) != bits(target),
        decreases sets@.len() - k,
    {
        if bitset_eq(&sets[k], &target) {
            return k;
        }
        k += 1;
    }
    sets.push(target);
    proof {
        let before = sets_of(old(sets)@);
        let after = sets_of(sets@);
        assert forall|i: int, j: int| 0 <= i < j < after.len() implies after[i] != after[j] by {
            if j < before.len() {
                assert(before[i] != before[j]);
            }
        }
    }
    k
}

impl NfaTable {
    /// Whether the table is in order: every place has its characters and
    /// its successors, and the end marks are numbers below the largest.
    pub open spec fn wf(&self) -> bool {
        self.chars@.len() == self.next@.len() && self.chars@.len() + self.tokens < usize::MAX
    }

    /// The token that ends at `items`.
    fn accept_of(&self, items: &BitSet) -> (accept: Option<usize>)
        requires
            self.wf(),
        ensures
            accept_ok(self@, bits(*items), accept),
    {
        let n = self.chars.len();
        let mut t: usize = 0;
        while t < self.tokens
            invariant
                self.wf(),
                n == self.chars@.len(),
                0 <= t <= self.tokens,
                forall|u: int| 0 <= u < t ==> !bits(*items).contains(#[trigger] end_mark(self@, u)),
            decreases self.tokens - t,
        {
            assert(end_mark(self@, t as int) == n + t);
            if bitset_contains(items, n + t) {
                return Some(t);
            }
            t += 1;
        }
        None
    }

    /// Where the automaton can be after the character `c` if it was at one
    /// of `from` before, and the last character from `c` on up to which it
    /// gets to the same places.
    fn move_on(&self, from: &BitSet, c: i32) -> (found: (BitSet, i32))
        requires
            self.wf(),
            0 <= c <= MAX_CHAR,
        ensures
            bits(found.0) == step(self@, bits(*from), c as int),
            c <= found.1 <= MAX_CHAR,
            forall|x: int|
                c <= x <= found.1 ==> #[trigger] step(self@, bits(*from), x) == step(
                    self@,
                    bits(*from),
                    c as int,
                ),
    {
        let ghost parts = |p: int| step_part(self@, bits(*from), c as int, p);
        let mut target = bitset_new();
        let mut e: i32 = MAX_CHAR;
        let mut p: usize = 0;
        proof {
            lemma_union_upto_none(parts);
        }
        while p < self.chars.len()
            invariant
                self.wf(),
                0 <= c <= e <= MAX_CHAR,
                0 <= p <= self.chars@.len(),
                parts == (|p: int| step_part(self@, bits(*from), c as int, p)),
                bits(target) == union_upto(parts, p as int),
                forall|q: int, x: int|
                    0 <= q < p && c <= x <= e ==> #[trigger] step_part(self@, bits(*from), x, q)
                        == step_part(self@, bits(*from), c as int, q),
            decreases self.chars@.len() - p,
        {
            let ghost before = bits(target);
            if bitset_contains(from, p) {
                let r = self.chars[p].run_end(c);
                if r < e {
                    e = r;
                }
                if self.chars[p].get(c) {
                    bitset_union_with(&mut target, &self.next[p]);
                }
            }
            proof {
                lemma_union_upto_more(parts, p as int);
                assert(bits(target) =~= before.union(parts(p as int)));
            }
            p += 1;
        }
        proof {
            assert forall|x: int| c <= x <= e implies #[trigger] step(self@, bits(*from), x)
                == step(self@, bits(*from), c as int) by {
                lemma_union_upto_same(
                    |p: int| step_part(self@, bits(*from), x, p),
                    parts,
                    self@.chars.len() as int,
                );
            }
        }
        (target, e)
    }

    /// The transitions of the state that stands for `from`. The states that
    /// they lead to join `sets` where they are not among them yet.
    fn moves_from(&self, from: &BitSet, sets: &mut Vec<BitSet>) -> (trans: Vec<Transition>)
        requires
            self.wf(),
            distinct(sets_of(old(sets)@)),
        ensures
            extends(sets_of(old(sets)@), sets_of(final(sets)@)),
            distinct(sets_of(final(sets)@)),
            deterministic(trans@),
            forall|j: int| 0 <= j < trans@.len() ==> (#[trigger] trans@[j]).target < final(sets)@.len(),
            forall|t: int|
                old(sets)@.len() <= t < final(sets)@.len() ==> #[trigger] target_of(trans@, t),
            forall|c: int|
                0 <= c <= MAX_CHAR ==> #[trigger] moves_ok(
                    sets_of(final(sets)@),
                    trans@,
                    self@,
                    bits(*from),
                    c,
                ),
    {
        let mut trans: Vec<Transition> = Vec::new();
        let mut c: i32 = 0;
        while c <= MAX_CHAR
            invariant
                self.wf(),
                0 <= c <= MAX_CHAR + 1,
                extends(sets_of(old(sets)@), sets_of(sets@)),
                distinct(sets_of(sets@)),
                deterministic(trans@),
                forall|j: int| 0 <= j < trans@.len() ==> (#[trigger] trans@[j]).to < c,
                forall|j: int| 0 <= j < trans@.len() ==> (#[trigger] trans@[j]).target < sets@.len(),
                forall|t: int| old(sets)@.len() <= t < sets@.len() ==> #[trigger] target_of(trans@, t),
                forall|x: int|
                    0 <= x < c ==> #[trigger] moves_ok(
                        sets_of(sets@),
                        trans@,
                        self@,
                        bits(*from),
                        x,
                    ),
            decreases MAX_CHAR + 1 - c,
        {
            let (target, e) = self.move_on(from, c);
            let ghost sets_before = sets_of(sets@);
            let ghost trans_before = trans@;
            if holds_nothing(&target) {
                proof {
                    assert forall|x: int| c <= x <= e implies #[trigger] moves_ok(
                        sets_of(sets@),
                        trans@,
                        self@,
                        bits(*from),
                        x,
                    ) by {
                        lemma_target_none_above(trans@, x);
                        assert(step(self@, bits(*from), x) == step(self@, bits(*from), c as int));
                    }
                }
            } else {
                let ghost to = bits(target);
                let t = find_or_add(sets, target);
                let next = Transition { from: c, to: e, target: t };
                trans.push(next);
                proof {
                    assert forall|u: int| old(sets)@.len() <= u < sets@.len() implies #[trigger] target_of(
                        trans@,
                        u,
                    ) by {
                        if u < sets_before.len() {
                            assert(target_of(trans_before, u));
                            let i = choose|i: int|
                                0 <= i < trans_before.len() && (#[trigger] trans_before[i]).target
                                    == u;
                            assert(trans@[i].target == u);
                        } else {
                            assert(trans@[trans@.len() - 1].target == u);
                        }
                    }
                    assert forall|x: int| 0 <= x <= e implies #[trigger] moves_ok(
                        sets_of(sets@),
                        trans@,
                        self@,
                        bits(*from),
                        x,
                    ) by {
                        lemma_target_at_push(trans_before, next, x);
                        if x < c {
                            assert(moves_ok(sets_before, trans_before, self@, bits(*from), x));
                            lemma_moves_stay(
                                sets_before,
                                sets_of(sets@),
                                trans_before,
                                self@,
                                bits(*from),
                                x,
                            );
                        } else {
                            assert(step(self@, bits(*from), x) == step(
                                self@,
                                bits(*from),
                                c as int,
                            ));
                            assert(sets_of(sets@)[t as int] == to);
                        }
                    }
                }
            }
            c = e + 1;
        }
        trans
    }

    /// The deterministic automaton of the table: its states are found one
    /// after the other, from the state that stands for the start on, each
    /// with the states that its transitions lead to.
    pub fn determinize(&self) -> (dfa: Dfa)
        requires
            self.wf(),
        ensures
            dfa.wf(),
            determinizes(dfa.states(), self@),
    {
        let mut sets: Vec<BitSet> = Vec::new();
        sets.push(bitset_clone(&self.start));
        let mut tables: Vec<Vec<Transition>> = Vec::new();
        let mut k: usize = 0;
        while k < sets.len()
            invariant
                self.wf(),
                sets@.len() > 0,
                bits(sets@[0]) == self@.start,
                distinct(sets_of(sets@)),
                k == tables@.len(),
                k <= sets@.len(),
                forall|j: int| 0 <= j < k ==> deterministic((#[trigger] tables@[j])@),
                forall|t: int|
                    0 < t < sets@.len() ==> #[trigger] entered(
                        lists_of(tables@),
                        t,
                    ),
                forall|j: int, i: int|
                    0 <= j < k && 0 <= i < tables@[j]@.len() ==> (#[trigger] tables@[j]@[i]).target
                        < sets@.len(),
                forall|j: int, c: int|
                    0 <= j < k && 0 <= c <= MAX_CHAR ==> #[trigger] moves_ok(
                        sets_of(sets@),
                        tables@[j]@,
                        self@,
                        bits(sets@[j]),
                        c,
                    ),
            decreases usize::MAX - k,
        {
            let from = bitset_clone(&sets[k]);
            let ghost before = sets@;
            let ghost tables_before = lists_of(tables@);
            let trans = self.moves_from(&from, &mut sets);
            let ghost tables_after = tables_before.push(trans@);
            proof {
                assert forall|t: int| 0 < t < sets@.len() implies #[trigger] entered(
                    tables_after,
                    t,
                ) by {
                    if t < before.len() {
                        assert(entered(tables_before, t));
                        let j = choose|j: int|
                            0 <= j < t && j < tables_before.len() && target_of(
                                #[trigger] tables_before[j],
                                t,
                            );
                        assert(tables_after[j] == tables_before[j]);
                    } else {
                        assert(target_of(trans@, t));
                        assert(tables_after[k as int] == trans@);
                    }
                }
                assert forall|j: int, c: int| 0 <= j < k && 0 <= c <= MAX_CHAR implies #[trigger] moves_ok(
                    sets_of(sets@),
                    tables@[j]@,
                    self@,
                    bits(sets@[j]),
                    c,
                ) by {
                    assert(sets_of(sets@)[j] == sets_of(before)[j]);
                    assert(moves_ok(sets_of(before), tables@[j]@, self@, bits(before[j]), c));
                    lemma_moves_stay(
                        sets_of(before),
                        sets_of(sets@),
                        tables@[j]@,
                        self@,
                        bits(before[j]),
                        c,
                    );
                }
                assert(sets_of(sets@)[k as int] == sets_of(before)[k as int]);
                assert(sets_of(sets@)[0] == sets_of(before)[0]);
            }
            tables.push(trans);
            assert(lists_of(tables@) =~= tables_after);
            k += 1;
        }
        let mut states: Vec<State> = Vec::new();
        let mut j: usize = 0;
        while j < sets.len()
            invariant
                self.wf(),
                0 <= j <= sets@.len(),
                sets@.len() == tables@.len(),
                states@.len() == j,
                forall|i: int|
                    0 <= i < j ==> bits((#[trigger] states@[i]).items) == bits(sets@[i])
                        && states@[i].trans@ == tables@[i]@ && accept_ok(
                        self@,
                        bits(sets@[i]),
                        states@[i].accept,
                    ),
            decreases sets@.len() - j,
        {
            let accept = self.accept_of(&sets[j]);
            let trans = copy_transitions(&tables[j]);
            states.push(State { items: bitset_clone(&sets[j]), trans, accept });
            j += 1;
        }
        proof {
            assert(item_sets(states@) =~= sets_of(sets@));
            assert(tables_of(states@) =~= lists_of(tables@));
        }
        Dfa { states }
    }
}

/// A list of its own with the same transitions.
fn copy_transitions(trans: &Vec<Transition>) -> (copy: Vec<Transition>)
    ensures
        copy@ == trans@,
{
    let mut copy: Vec<Transition> = Vec::new();
    let mut i: usize = 0;
    while i < trans.len()
        invariant
            0 <= i <= trans@.len(),
            copy@ == trans@.take(i as int),
        decreases trans@.len() - i,
    {
        copy.push(trans[i]);
        assert(copy@ =~= trans@.take(i + 1));
        i += 1;
    }
    assert(copy@ =~= trans@);
    copy
}

/// Whether the states make a deterministic automaton: in every state the
/// transitions are in ascending order of their characters, no character
/// has two of them, and each leads to a state that there is.
pub open spec fn dfa_ok(states: Seq<State>) -> bool {
    forall|k: int|
        0 <= k < states.len() ==> deterministic((#[trigger] states[k]).trans@) && forall|i: int|
            0 <= i < states[k].trans@.len() ==> (#[trigger] states[k].trans@[i]).target
                < states.len()
}

/// A deterministic automaton.
pub struct Dfa {
    states: Vec<State>,
}

impl Dfa {
    /// The states, each at the index that is its number. The automaton
    /// starts in the first.
    pub closed spec fn states(&self) -> Seq<State> {
        self.states@
    }

    /// The invariant of the automaton: it is deterministic.
    #[verifier::type_invariant]
    pub open spec fn wf(&self) -> bool {
        dfa_ok(self.states())
    }

    /// The number of states.
    pub fn state_count(&self) -> (n: usize)
        ensures
            n == self.states().len(),
    {
        self.states.len()
    }

    /// The state with the number `k`.
    pub fn state(&self, k: usize) -> (state: &State)
        requires
            k < self.states().len(),
        ensures
            *state == self.states()[k as int],
            deterministic(state.trans@),
            forall|i: int|
                0 <= i < state.trans@.len() ==> (#[trigger] state.trans@[i]).target
                    < self.states().len(),
    {
        proof {
            use_type_invariant(self);
        }
        &self.states[k]
    }

    /// The state that the automaton goes to from the state `k` on the
    /// character `c`, if it goes anywhere.
    pub fn next_state(&self, k: usize, c: i32) -> (next: Option<usize>)
        requires
            k < self.states().len(),
        ensures
            next == target_at(self.states()[k as int].trans@, c as int),
            next matches Some(t) ==> t < self.states().len(),
    {
        proof {
            use_type_invariant(self);
        }
        let trans = &self.states[k].trans;
        let mut i: usize = trans.len();
        assert(trans@.take(trans@.len() as int) =~= trans@);
        while i > 0
            invariant
                0 <= i <= trans@.len(),
                k < self.states().len(),
                trans@ == self.states()[k as int].trans@,
                target_at(trans@, c as int) == target_at(trans@.take(i as int), c as int),
                forall|j: int| 0 <= j < trans@.len() ==> (#[trigger] trans@[j]).target < self.states().len(),
            decreases i,
        {
            let t = trans[i - 1];
            proof {
                let part = trans@.take(i as int);
                assert(part.last() == trans@[i - 1]);
                assert(part.drop_last() =~= trans@.take(i - 1));
            }
            if t.from <= c && c <= t.to {
                return Some(t.target);
            }
            i -= 1;
        }
        None
    }

    /// Folds the automaton: as long as two states end the same token and
    /// have the same transitions, the later of them gives way to the
    /// earlier. Returns the folded automaton and, for each state of the
    /// automaton as it was, the number of the state that stands for it now.
    ///
    /// The states of the folded automaton keep the items of the states that
    /// stayed.
    pub fn minimize(self) -> (folded: (Dfa, Vec<usize>))
        ensures
            folded.0.wf(),
            folds(self.states(), folded.0.states(), folded.1@),
            minimal(folded.0.states()),
    {
        proof {
            use_type_invariant(&self);
        }
        let ghost full = self.states();
        let mut states = self.states;
        let mut map: Vec<usize> = Vec::new();
        let mut k: usize = 0;
        while k < states.len()
            invariant
                states@ == full,
                0 <= k <= states@.len(),
                map@.len() == k,
                forall|i: int| 0 <= i < k ==> map@[i] == i,
            decreases states@.len() - k,
        {
            map.push(k);
            k += 1;
        }
        proof {
            assert forall|n: int| 0 <= n < states@.len() implies #[trigger] has_origin(map@, n) by {
                assert(map@[n] == n);
            }
            assert forall|k: int, c: int| 0 <= k < full.len() && 0 <= c <= MAX_CHAR implies target_at(
                states@[map@[k] as int].trans@,
                c,
            ) == through(map@, #[trigger] target_at(full[k].trans@, c)) by {
                lemma_target_is_one(full[k].trans@, c);
            }
        }
        loop
            invariant
                full == self.states(),
                dfa_ok(full),
                dfa_ok(states@),
                folds(full, states@, map@),
            decreases states@.len(),
        {
            match find_alike(&states) {
                None => {
                    return (Dfa { states }, map);
                },
                Some((i, j)) => {
                    let count = states.len();
                    let merged = merge(&states, i, j);
                    let moved = renumber_all(&map, i, j, Ghost(count as nat));
                    proof {
                        lemma_fold_more(full, states@, map@, merged@, moved@, i, j);
                    }
                    states = merged;
                    map = moved;
                },
            }
        }
    }
}

/// Whether two states behave alike: they end the same token and have the
/// same transitions.
pub open spec fn alike(a: State, b: State) -> bool {
    a.accept == b.accept && a.trans@ == b.trans@
}

/// Whether no two of the states behave alike.
pub open spec fn minimal(states: Seq<State>) -> bool {
    forall|i: int, j: int| 0 <= i < j < states.len() ==> !alike(states[i], states[j])
}

/// The state `t`, if it is one, by its new number.
pub open spec fn through(map: Seq<usize>, t: Option<usize>) -> Option<usize> {
    match t {
        Some(x) => Some(map[x as int]),
        None => None,
    }
}

/// Whether the state `n` stands for some state by `map`.
pub open spec fn has_origin(map: Seq<usize>, n: int) -> bool {
    exists|k: int| 0 <= k < map.len() && #[trigger] map[k] == n
}

/// Whether `small` is `full` folded by `map`: every state of `full` has a
/// state of `small` that stands for it, every state of `small` stands for
/// one of `full`, the first stands for the first, and a state and the one
/// that stands for it end the same token and go, on every character, to
/// states of which again one stands for the other.
pub open spec fn folds(full: Seq<State>, small: Seq<State>, map: Seq<usize>) -> bool {
    &&& map.len() == full.len()
    &&& forall|k: int| 0 <= k < full.len() ==> #[trigger] map[k] < small.len()
    &&& forall|n: int| 0 <= n < small.len() ==> #[trigger] has_origin(map, n)
    &&& full.len() > 0 ==> map[0] == 0
    &&& forall|k: int|
        0 <= k < full.len() ==> small[map[k] as int].accept == (#[trigger] full[k]).accept
    &&& forall|k: int, c: int|
        0 <= k < full.len() && 0 <= c <= MAX_CHAR ==> target_at(small[map[k] as int].trans@, c)
            == through(map, #[trigger] target_at(full[k].trans@, c))
}

/// The new number of the state `x` when the state `j` gives way to the
/// state `i`.
pub open spec fn renumber(x: usize, i: usize, j: usize) -> usize {
    if x == j {
        i
    } else if x > j {
        (x - 1) as usize
    } else {
        x
    }
}

/// The transitions with their targets renumbered.
pub open spec fn renumbered(trans: Seq<Transition>, i: usize, j: usize) -> Seq<Transition> {
    Seq::new(
        trans.len(),
        |n: int| Transition { from: trans[n].from, to: trans[n].to, target: renumber(trans[n].target, i, j) },
    )
}

/// The state that has the number `n` once the state `j` is gone.
pub open spec fn survivor(n: int, j: usize) -> int {
    if n < j {
        n
    } else {
        n + 1
    }
}

/// Whether `merged` is `states` with the state `j` gone and the targets
/// renumbered.
pub open spec fn merges(states: Seq<State>, merged: Seq<State>, i: usize, j: usize) -> bool {
    &&& merged.len() == states.len() - 1
    &&& forall|n: int|
        0 <= n < merged.len() ==> (#[trigger] merged[n]).accept == states[survivor(n, j)].accept
            && merged[n].trans@ == renumbered(states[survivor(n, j)].trans@, i, j)
}

/// Renumbered transitions lead to the renumbered states.
proof fn lemma_target_renumbered(trans: Seq<Transition>, i: usize, j: usize, c: int)
    ensures
        target_at(renumbered(trans, i, j), c) == match target_at(trans, c) {
            Some(x) => Some(renumber(x, i, j)),
            None => None,
        },
    decreases trans.len(),
{
    if trans.len() > 0 {
        assert(renumbered(trans, i, j).drop_last() =~= renumbered(trans.drop_last(), i, j));
        assert(renumbered(trans, i, j).last().from == trans.last().from);
        lemma_target_renumbered(trans.drop_last(), i, j, c);
    }
}

/// Where the transitions lead is the target of one of them.
proof fn lemma_target_is_one(trans: Seq<Transition>, c: int)
    ensures
        target_at(trans, c) matches Some(x) ==> exists|n: int|
            0 <= n < trans.len() && (#[trigger] trans[n]).target == x,
    decreases trans.len(),
{
    if trans.len() > 0 {
        if trans.last().from <= c <= trans.last().to {
            assert(trans[trans.len() - 1].target == trans.last().target);
        } else {
            lemma_target_is_one(trans.drop_last(), c);
            if target_at(trans, c) is Some {
                let x = target_at(trans, c)->0;
                let n = choose|n: int|
                    0 <= n < trans.drop_last().len() && (#[trigger] trans.drop_last()[n]).target
                        == x;
                assert(trans[n].target == x);
            }
        }
    }
}

/// Folding a folded automaton once more folds the automaton that it came
/// from.
proof fn lemma_fold_more(
    full: Seq<State>,
    states: Seq<State>,
    map: Seq<usize>,
    merged: Seq<State>,
    moved: Seq<usize>,
    i: usize,
    j: usize,
)
    requires
        dfa_ok(full),
        dfa_ok(states),
        folds(full, states, map),
        states.len() <= usize::MAX,
        i < j < states.len(),
        alike(states[i as int], states[j as int]),
        merges(states, merged, i, j),
        moved.len() == map.len(),
        forall|k: int| 0 <= k < map.len() ==> #[trigger] moved[k] == renumber(map[k], i, j),
    ensures
        dfa_ok(merged),
        folds(full, merged, moved),
{
    // every state has its place among the merged, with its own token and
    // its own transitions renumbered
    assert forall|x: int| 0 <= x < states.len() implies renumber(x as usize, i, j) < merged.len()
        && merged[renumber(x as usize, i, j) as int].accept == (#[trigger] states[x]).accept
        && merged[renumber(x as usize, i, j) as int].trans@ == renumbered(states[x].trans@, i, j) by {
        let n = renumber(x as usize, i, j) as int;
        if x == j {
            assert(survivor(n, j) == i);
        } else {
            assert(survivor(n, j) == x);
        }
    }
    assert forall|n: int| 0 <= n < merged.len() implies deterministic((#[trigger] merged[n]).trans@)
        && forall|m: int|
        0 <= m < merged[n].trans@.len() ==> (#[trigger] merged[n].trans@[m]).target
            < merged.len() by {
        let src = states[survivor(n, j)];
        assert(deterministic(src.trans@));
        assert forall|m: int| 0 <= m < merged[n].trans@.len() implies (#[trigger] merged[n].trans@[m]).target
            < merged.len() by {
            assert(src.trans@[m].target < states.len());
        }
        assert forall|a: int, b: int| 0 <= a < b < merged[n].trans@.len() implies (#[trigger] merged[n].trans@[a]).to
            < (#[trigger] merged[n].trans@[b]).from by {
            assert(src.trans@[a].to < src.trans@[b].from);
        }
        assert forall|a: int| 0 <= a < merged[n].trans@.len() implies 0 <= (#[trigger] merged[n].trans@[a]).from
            <= merged[n].trans@[a].to <= MAX_CHAR by {
            assert(0 <= src.trans@[a].from <= src.trans@[a].to <= MAX_CHAR);
        }
    }
    assert forall|k: int| 0 <= k < full.len() implies #[trigger] moved[k] < merged.len() by {
        assert(map[k] < states.len());
    }
    assert forall|n: int| 0 <= n < merged.len() implies #[trigger] has_origin(moved, n) by {
        let x = survivor(n, j);
        assert(has_origin(map, x));
        let k = choose|k: int| 0 <= k < map.len() && #[trigger] map[k] == x;
        assert(moved[k] == n);
    }
    assert forall|k: int| 0 <= k < full.len() implies merged[moved[k] as int].accept == (
    #[trigger] full[k]).accept by {
        assert(map[k] < states.len());
        assert(states[map[k] as int].accept == full[k].accept);
    }
    assert forall|k: int, c: int| 0 <= k < full.len() && 0 <= c <= MAX_CHAR implies target_at(
        merged[moved[k] as int].trans@,
        c,
    ) == through(moved, #[trigger] target_at(full[k].trans@, c)) by {
        assert(map[k] < states.len());
        let x = map[k] as int;
        lemma_target_renumbered(states[x].trans@, i, j, c);
        assert(target_at(states[x].trans@, c) == through(map, target_at(full[k].trans@, c)));
        lemma_target_is_one(full[k].trans@, c);
        if target_at(full[k].trans@, c) is Some {
            let t = target_at(full[k].trans@, c)->0;
            assert(t < full.len());
        }
    }
    if full.len() > 0 {
        assert(map[0] == 0);
    }
}

/// Whether the two lists hold the same transitions.
fn same_transitions(a: &Vec<Transition>, b: &Vec<Transition>) -> (same: bool)
    ensures
        same == (a@ == b@),
{
    if a.len() != b.len() {
        return false;
    }
    let mut k: usize = 0;
    while k < a.len()
        invariant
            0 <= k <= a@.len(),
            a@.len() == b@.len(),
            a@.take(k as int) == b@.take(k as int),
        decreases a@.len() - k,
    {
        if a[k].from != b[k].from || a[k].to != b[k].to || a[k].target != b[k].target {
            return false;
        }
        assert(a@.take(k + 1) =~= a@.take(k as int).push(a@[k as int]));
        assert(b@.take(k + 1) =~= b@.take(k as int).push(b@[k as int]));
        k += 1;
    }
    assert(a@ =~= a@.take(k as int));
    assert(b@ =~= b@.take(k as int));
    true
}

/// Whether the two states end the same token, or both none.
fn same_accept(a: &Option<usize>, b: &Option<usize>) -> (same: bool)
    ensures
        same == (*a == *b),
{
    match (a, b) {
        (Some(x), Some(y)) => *x == *y,
        (None, None) => true,
        _ => false,
    }
}

/// The first two states that behave alike, if there are any.
fn find_alike(states: &Vec<State>) -> (found: Option<(usize, usize)>)
    ensures
        match found {
            Some((i, j)) => i < j < states@.len() && alike(states@[i as int], states@[j as int]),
            None => minimal(states@),
        },
{
    let mut i: usize = 0;
    while i < states.len()
        invariant
            0 <= i <= states@.len(),
            forall|a: int, b: int| 0 <= a < i && a < b < states@.len() ==> !alike(states@[a], states@[b]),
        decreases states@.len() - i,
    {
        let mut j: usize = i + 1;
        while j < states.len()
            invariant
                i < j <= states@.len(),
                forall|b: int| i < b < j ==> !alike(states@[i as int], states@[b]),
            decreases states@.len() - j,
        {
            if same_accept(&states[i].accept, &states[j].accept) && same_transitions(
                &states[i].trans,
                &states[j].trans,
            ) {
                return Some((i, j));
            }
            j += 1;
        }
        i += 1;
    }
    None
}

/// The states without the state `j`, which gives way to the state `i`.
fn merge(states: &Vec<State>, i: usize, j: usize) -> (merged: Vec<State>)
    requires
        i < j < states@.len(),
    ensures
        merges(states@, merged@, i, j),
{
    let mut merged: Vec<State> = Vec::new();
    let mut n: usize = 0;
    while n < states.len() - 1
        invariant
            i < j < states@.len(),
            0 <= n <= states@.len() - 1,
            merged@.len() == n,
            forall|m: int|
                0 <= m < n ==> (#[trigger] merged@[m]).accept == states@[survivor(m, j)].accept
                    && merged@[m].trans@ == renumbered(states@[survivor(m, j)].trans@, i, j),
        decreases states@.len() - 1 - n,
    {
        let src = if n < j {
            n
        } else {
            n + 1
        };
        let old = &states[src];
        let mut trans: Vec<Transition> = Vec::new();
        let mut m: usize = 0;
        while m < old.trans.len()
            invariant
                0 <= m <= old.trans@.len(),
                trans@.len() == m,
                forall|a: int|
                    0 <= a < m ==> trans@[a] == (Transition {
                        from: old.trans@[a].from,
                        to: old.trans@[a].to,
                        target: renumber(old.trans@[a].target, i, j),
                    }),
            decreases old.trans@.len() - m,
        {
            let t = old.trans[m];
            let target = if t.target == j {
                i
            } else if t.target > j {
                t.target - 1
            } else {
                t.target
            };
            trans.push(Transition { from: t.from, to: t.to, target });
            m += 1;
        }
        assert(trans@ =~= renumbered(old.trans@, i, j));
        merged.push(State { items: bitset_clone(&old.items), trans, accept: old.accept });
        n += 1;
    }
    merged
}

/// The numbers of `map` when the state `j` gives way to the state `i`.
fn renumber_all(map: &Vec<usize>, i: usize, j: usize, Ghost(len): Ghost<nat>) -> (moved: Vec<usize>)
    requires
        i < j < len,
        forall|k: int| 0 <= k < map@.len() ==> #[trigger] map@[k] < len,
    ensures
        moved@.len() == map@.len(),
        forall|k: int| 0 <= k < map@.len() ==> #[trigger] moved@[k] == renumber(map@[k], i, j),
{
    let mut moved: Vec<usize> = Vec::new();
    let mut k: usize = 0;
    while k < map.len()
        invariant
            i < j < len,
            0 <= k <= map@.len(),
            moved@.len() == k,
            forall|a: int| 0 <= a < map@.len() ==> #[trigger] map@[a] < len,
            forall|a: int| 0 <= a < k ==> #[trigger] moved@[a] == renumber(map@[a], i, j),
        decreases map@.len() - k,
    {
        let x = map[k];
        let y = if x == j {
            i
        } else if x > j {
            x - 1
        } else {
            x
        };
        moved.push(y);
        k += 1;
    }
    moved
}

} // verus!
