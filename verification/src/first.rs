//! What can start each part of a grammar: terminals in the productions of
//! nonterminals, and nodes in the graphs of tokens.
//!
//! As with deletability, the sets are found for all symbols and all nodes
//! together, in passes that each apply the rules once to what the pass
//! before has found, until a pass finds nothing new.

use crate::deletable::{deletables, DelTable};
use crate::fixpoint::{iterate, lemma_limit, limit, settles};
use crate::tab::{bits, sets_of, InternalError, Node, NodeObject, NodeRef, NodeType, Symbol, Tab};
use crate::tab::{bitset_clone, bitset_eq, bitset_insert, bitset_new, bitset_union_with};
use bit_set::BitSet;
use vstd::prelude::*;

verus! {

/// The terminals found so far that can start each symbol and that can start
/// the rest of the production from each node on.
pub struct Firsts {
    pub sym: Seq<Set<usize>>,
    pub node: Seq<Set<usize>>,
}

/// The set of the node that `p` leads to; where `p` leads nowhere, nothing.
pub open spec fn set_at(sets: Seq<Set<usize>>, p: Node) -> Set<usize> {
    match p {
        Some(r) if r.n < sets.len() => sets[r.n as int],
        _ => Set::empty(),
    }
}

/// What can start a node by itself: a terminal starts with itself, a
/// nonterminal with what its symbol starts with, a node for any symbol with
/// its set, a choice with what its alternatives start with, and an
/// iteration or an option with what its body starts with.
///
/// In the graph of a token the nodes are characters and character classes.
/// There is no symbol for them to start with: the set of such a node holds
/// the number of the node itself, so that the sets in the graph of a token
/// tell which of its nodes can match the first character.
pub open spec fn own_first(node: NodeObject, st: Firsts) -> Set<usize> {
    match node.typ {
        NodeType::Chr | NodeType::Clas => set![node.n as usize],
        NodeType::T | NodeType::Wt => match node.sym {
            Some(s) => set![s],
            None => Set::empty(),
        },
        NodeType::Nt => match node.sym {
            Some(s) if s < st.sym.len() => st.sym[s as int],
            _ => Set::empty(),
        },
        NodeType::Any => bits(node.set),
        NodeType::Alt => set_at(st.node, node.sub).union(set_at(st.node, node.down)),
        NodeType::Iter | NodeType::Opt => set_at(st.node, node.sub),
        _ => Set::empty(),
    }
}

/// The rule for a node: what can start the node itself and, if the node is
/// deletable, what can start its successor.
pub open spec fn node_first(node: NodeObject, deletable: bool, st: Firsts) -> Set<usize> {
    own_first(node, st).union(
        if deletable {
            set_at(st.node, node.next)
        } else {
            Set::empty()
        },
    )
}

/// The rule for a symbol: a nonterminal starts with what its graph starts
/// with.
pub open spec fn sym_first(sym: Symbol, st: Firsts) -> Set<usize> {
    if sym.typ == NodeType::Nt.spec_code() {
        set_at(st.node, sym.graph)
    } else {
        Set::empty()
    }
}

/// One pass: what was found stays, and what the rules give from it is
/// added. `del` says of each node whether it is deletable.
pub open spec fn first_pass(
    nodes: Seq<NodeObject>,
    symbols: Seq<Symbol>,
    del: Seq<bool>,
    st: Firsts,
) -> Firsts {
    Firsts {
        sym: Seq::new(symbols.len(), |s: int| st.sym[s].union(sym_first(symbols[s], st))),
        node: Seq::new(nodes.len(), |i: int| st.node[i].union(node_first(nodes[i], del[i], st))),
    }
}

/// Where the passes start: with nothing.
pub open spec fn first_start(nodes: Seq<NodeObject>, symbols: Seq<Symbol>) -> Firsts {
    Firsts {
        sym: Seq::new(symbols.len(), |s: int| Set::empty()),
        node: Seq::new(nodes.len(), |i: int| Set::empty()),
    }
}

/// Whether pass `k + 1` finds nothing new.
pub open spec fn first_settles(
    nodes: Seq<NodeObject>,
    symbols: Seq<Symbol>,
    del: Seq<bool>,
    k: nat,
) -> bool {
    settles(|st: Firsts| first_pass(nodes, symbols, del, st), first_start(nodes, symbols), k)
}

/// The start sets: what the passes have found when they find nothing new.
pub open spec fn firsts(nodes: Seq<NodeObject>, symbols: Seq<Symbol>, del: Seq<bool>) -> Firsts {
    limit(|st: Firsts| first_pass(nodes, symbols, del, st), first_start(nodes, symbols))
}

/// The most passes that the analysis makes before it gives up: one for each
/// member that each set could take in, if the sets hold the numbers of
/// symbols and of nodes only.
pub open spec fn first_ceiling(nodes: Seq<NodeObject>, symbols: Seq<Symbol>) -> nat {
    (symbols.len() + nodes.len()) * (symbols.len() + nodes.len())
}

/// Whether the passes find nothing new before they have passed their
/// ceiling.
pub open spec fn first_found(nodes: Seq<NodeObject>, symbols: Seq<Symbol>, del: Seq<bool>) -> bool {
    exists|k: nat|
        k <= first_ceiling(nodes, symbols) && first_settles(nodes, symbols, del, k)
}

/// The start sets, as the analysis keeps them.
pub struct FirstTable {
    pub sym: Vec<BitSet>,
    pub node: Vec<BitSet>,
}

impl View for FirstTable {
    type V = Firsts;

    open spec fn view(&self) -> Firsts {
        Firsts { sym: sets_of(self.sym@), node: sets_of(self.node@) }
    }
}

/// The members of the first `n` of the sets `parts`.
pub open spec fn union_upto(parts: spec_fn(int) -> Set<usize>, n: int) -> Set<usize> {
    Set::new(|t: usize| exists|i: int| 0 <= i < n && (#[trigger] parts(i)).contains(t))
}

/// No set has no members.
pub proof fn lemma_union_upto_none(parts: spec_fn(int) -> Set<usize>)
    ensures
        union_upto(parts, 0) == Set::<usize>::empty(),
{
    assert(union_upto(parts, 0) =~= Set::<usize>::empty());
}

/// One set more brings its members.
pub proof fn lemma_union_upto_more(parts: spec_fn(int) -> Set<usize>, n: int)
    requires
        0 <= n,
    ensures
        union_upto(parts, n + 1) == union_upto(parts, n).union(parts(n)),
{
    let more = union_upto(parts, n + 1);
    let less = union_upto(parts, n).union(parts(n));
    assert forall|t: usize| more.contains(t) == less.contains(t) by {
        if more.contains(t) {
            let i = choose|i: int| 0 <= i < n + 1 && (#[trigger] parts(i)).contains(t);
            if i < n {
                assert(union_upto(parts, n).contains(t));
            }
        }
        if union_upto(parts, n).contains(t) {
            let i = choose|i: int| 0 <= i < n && (#[trigger] parts(i)).contains(t);
            assert(0 <= i < n + 1 && parts(i).contains(t));
        }
        if parts(n).contains(t) {
            assert(0 <= n < n + 1 && parts(n).contains(t));
        }
    }
    assert(more =~= less);
}

/// Whether the sets of the two lists hold the same numbers, one by one.
pub(crate) fn same_sets(a: &Vec<BitSet>, b: &Vec<BitSet>) -> (same: bool)
    ensures
        same == (sets_of(a@) == sets_of(b@)),
{
    if a.len() != b.len() {
        assert(sets_of(a@).len() != sets_of(b@).len());
        return false;
    }
    let mut k: usize = 0;
    while k < a.len()
        invariant
            0 <= k <= a@.len(),
            a@.len() == b@.len(),
            forall|j: int| 0 <= j < k ==> bits(a@[j]) == bits(b@[j]),
        decreases a@.len() - k,
    {
        if !bitset_eq(&a[k], &b[k]) {
            assert(sets_of(a@)[k as int] != sets_of(b@)[k as int]);
            return false;
        }
        k += 1;
    }
    assert(sets_of(a@) =~= sets_of(b@));
    true
}

/// `n` empty sets.
pub(crate) fn empty_sets(n: usize) -> (v: Vec<BitSet>)
    ensures
        sets_of(v@) == Seq::new(n as nat, |i: int| Set::<usize>::empty()),
{
    let mut v: Vec<BitSet> = Vec::new();
    let mut i: usize = 0;
    while i < n
        invariant
            0 <= i <= n,
            v@.len() == i,
            forall|j: int| 0 <= j < i ==> bits(v@[j]) == Set::<usize>::empty(),
        decreases n - i,
    {
        v.push(bitset_new());
        i += 1;
    }
    assert(sets_of(v@) =~= Seq::new(n as nat, |i: int| Set::<usize>::empty()));
    v
}

/// Puts into `acc` the set of the node that `p` leads to.
pub(crate) fn union_at(acc: &mut BitSet, sets: &Vec<BitSet>, p: Node)
    ensures
        bits(*final(acc)) == bits(*old(acc)).union(set_at(sets_of(sets@), p)),
{
    match p {
        Some(r) => {
            if r.n < sets.len() {
                bitset_union_with(acc, &sets[r.n]);
                return ;
            }
        },
        None => {},
    }
    assert(bits(*acc) =~= bits(*old(acc)).union(Set::<usize>::empty()));
}

impl FirstTable {
    /// The terminals that can start the symbol `s`.
    pub fn first_of_sym(&self, s: usize) -> (set: &BitSet)
        requires
            s < self@.sym.len(),
        ensures
            bits(*set) == self@.sym[s as int],
    {
        &self.sym[s]
    }

    /// The terminals that can start the rest of the production from the
    /// node `p` on.
    pub fn first_of_node(&self, p: NodeRef) -> (set: &BitSet)
        requires
            p.n < self@.node.len(),
        ensures
            bits(*set) == self@.node[p.n as int],
    {
        &self.node[p.n]
    }
}

impl Tab {
    /// One pass over all symbols and nodes.
    fn first_step(&self, del: &DelTable, st: &FirstTable) -> (next: FirstTable)
        requires
            self.wf(),
            del@.node.len() == self.nodes().len(),
            st@.sym.len() == self.symbols().len(),
            st@.node.len() == self.nodes().len(),
        ensures
            next@ == first_pass(self.nodes(), self.symbols(), del@.node, st@),
    {
        let mut sym: Vec<BitSet> = Vec::new();
        let mut s: usize = 0;
        while s < self.sym_count()
            invariant
                0 <= s <= self.symbols().len(),
                st@.sym.len() == self.symbols().len(),
                sym@.len() == s,
                forall|j: int|
                    0 <= j < s ==> bits(sym@[j]) == st@.sym[j].union(
                        sym_first(self.symbols()[j], st@),
                    ),
            decreases self.symbols().len() - s,
        {
            let symbol = self.sym(s);
            let mut acc = bitset_clone(&st.sym[s]);
            if symbol.typ == NodeType::Nt.code() {
                union_at(&mut acc, &st.node, symbol.graph);
            }
            assert(bits(acc) =~= st@.sym[s as int].union(sym_first(self.symbols()[s as int], st@)));
            sym.push(acc);
            s += 1;
        }
        let mut node: Vec<BitSet> = Vec::new();
        let mut i: usize = 0;
        while i < self.node_count()
            invariant
                self.wf(),
                0 <= i <= self.nodes().len(),
                del@.node.len() == self.nodes().len(),
                st@.sym.len() == self.symbols().len(),
                st@.node.len() == self.nodes().len(),
                node@.len() == i,
                forall|j: int|
                    0 <= j < i ==> bits(node@[j]) == st@.node[j].union(
                        node_first(self.nodes()[j], del@.node[j], st@),
                    ),
            decreases self.nodes().len() - i,
        {
            let p = self.node(NodeRef { n: i });
            let mut acc = bitset_clone(&st.node[i]);
            match p.typ {
                NodeType::Chr | NodeType::Clas => {
                    bitset_insert(&mut acc, i);
                },
                NodeType::T | NodeType::Wt => match p.sym {
                    Some(s) => {
                        bitset_insert(&mut acc, s);
                    },
                    None => {},
                },
                NodeType::Nt => match p.sym {
                    Some(s) => {
                        if s < st.sym.len() {
                            bitset_union_with(&mut acc, &st.sym[s]);
                        }
                    },
                    None => {},
                },
                NodeType::Any => {
                    bitset_union_with(&mut acc, &p.set);
                },
                NodeType::Alt => {
                    union_at(&mut acc, &st.node, p.sub);
                    union_at(&mut acc, &st.node, p.down);
                },
                NodeType::Iter | NodeType::Opt => {
                    union_at(&mut acc, &st.node, p.sub);
                },
                _ => {},
            }
            assert(bits(acc) =~= st@.node[i as int].union(own_first(*p, st@)));
            if del.node[i] {
                union_at(&mut acc, &st.node, p.next);
            }
            assert(bits(acc) =~= st@.node[i as int].union(
                node_first(self.nodes()[i as int], del@.node[i as int], st@),
            ));
            node.push(acc);
            i += 1;
        }
        let next = FirstTable { sym, node };
        proof {
            let want = first_pass(self.nodes(), self.symbols(), del@.node, st@);
            assert(next@.sym =~= want.sym);
            assert(next@.node =~= want.node);
        }
        next
    }

    /// Finds the start sets, given what is deletable, in passes over the
    /// symbols and the nodes until a pass finds nothing new.
    ///
    /// Fails if there is still something new after the ceiling of passes.
    pub fn first_sets(&self, del: &DelTable) -> (found: Result<FirstTable, InternalError>)
        requires
            self.wf(),
            del@.node.len() == self.nodes().len(),
        ensures
            found is Ok <==> first_found(self.nodes(), self.symbols(), del@.node),
            found matches Ok(st) ==> st@ == firsts(self.nodes(), self.symbols(), del@.node),
            found matches Err(e) ==> e == InternalError::NoFixedPoint,
    {
        let ns = self.sym_count() as u64;
        let nn = self.node_count() as u64;
        let all: u64 = ns + nn;
        assert(all * all <= 0xffff_fffe * 0xffff_fffe) by (nonlinear_arith)
            requires
                0 <= all <= 0xffff_fffe,
        ;
        let ceiling: u64 = all * all;
        let ghost f = |st: Firsts| first_pass(self.nodes(), self.symbols(), del@.node, st);
        let ghost x = first_start(self.nodes(), self.symbols());
        let mut st = FirstTable {
            sym: empty_sets(self.sym_count()),
            node: empty_sets(self.node_count()),
        };
        let mut passes: u64 = 0;
        loop
            invariant
                self.wf(),
                del@.node.len() == self.nodes().len(),
                f == (|st: Firsts| first_pass(self.nodes(), self.symbols(), del@.node, st)),
                x == first_start(self.nodes(), self.symbols()),
                ceiling == first_ceiling(self.nodes(), self.symbols()),
                0 <= passes <= ceiling,
                st@ == iterate(f, x, passes as nat),
                st@.sym.len() == self.symbols().len(),
                st@.node.len() == self.nodes().len(),
                forall|k: nat| k < passes ==> !settles(f, x, k),
            decreases ceiling - passes,
        {
            let next = self.first_step(del, &st);
            assert(next@ == f(st@));
            if same_sets(&next.sym, &st.sym) && same_sets(&next.node, &st.node) {
                proof {
                    assert(settles(f, x, passes as nat));
                    assert(first_settles(self.nodes(), self.symbols(), del@.node, passes as nat));
                    lemma_limit(f, x, passes as nat);
                }
                return Ok(st);
            }
            assert(!settles(f, x, passes as nat));
            if passes == ceiling {
                return Err(InternalError::NoFixedPoint);
            }
            assert(iterate(f, x, (passes + 1) as nat) == f(iterate(f, x, passes as nat)));
            st = next;
            passes += 1;
        }
    }

    /// Gives every symbol its start set, with what is deletable found
    /// first, and marks the set as ready.
    ///
    /// Fails, and changes nothing, where `first_sets` fails.
    pub fn comp_first_sets(&mut self) -> (done: Result<(), InternalError>)
        requires
            old(self).wf(),
        ensures
            final(self).wf(),
            final(self).nodes() == old(self).nodes(),
            final(self).classes() == old(self).classes(),
            final(self).symbols().len() == old(self).symbols().len(),
            done is Ok <==> first_found(
                old(self).nodes(),
                old(self).symbols(),
                deletables(old(self).nodes(), old(self).symbols()).node,
            ),
            done matches Err(e) ==> e == InternalError::NoFixedPoint && final(self).symbols()
                == old(self).symbols(),
            done is Ok ==> forall|s: int|
                0 <= s < old(self).symbols().len() ==> bits(
                    (#[trigger] final(self).symbols()[s]).first,
                ) == firsts(
                    old(self).nodes(),
                    old(self).symbols(),
                    deletables(old(self).nodes(), old(self).symbols()).node,
                ).sym[s] && final(self).symbols()[s] == (Symbol {
                    first: final(self).symbols()[s].first,
                    first_ready: true,
                    ..old(self).symbols()[s]
                }),
    {
        let del = self.deletability();
        let st = match self.first_sets(&del) {
            Ok(st) => st,
            Err(e) => {
                return Err(e);
            },
        };
        let mut s: usize = 0;
        while s < self.sym_count()
            invariant
                self.wf(),
                self.nodes() == old(self).nodes(),
                self.classes() == old(self).classes(),
                self.symbols().len() == old(self).symbols().len(),
                st@.sym.len() == self.symbols().len(),
                0 <= s <= self.symbols().len(),
                forall|j: int|
                    0 <= j < s ==> bits((#[trigger] self.symbols()[j]).first) == st@.sym[j]
                        && self.symbols()[j] == (Symbol {
                        first: self.symbols()[j].first,
                        first_ready: true,
                        ..old(self).symbols()[j]
                    }),
                forall|j: int|
                    s <= j < self.symbols().len() ==> self.symbols()[j] == old(self).symbols()[j],
            decreases self.symbols().len() - s,
        {
            let set = bitset_clone(&st.sym[s]);
            self.set_first(s, set);
            s += 1;
        }
        Ok(())
    }
}

/// When the passes have found nothing new, the set of a node holds all that
/// can start the node itself.
pub proof fn lemma_first_holds_own(
    nodes: Seq<NodeObject>,
    symbols: Seq<Symbol>,
    del: Seq<bool>,
    k: nat,
    i: int,
)
    requires
        first_settles(nodes, symbols, del, k),
        0 <= i < nodes.len(),
    ensures
        own_first(nodes[i], firsts(nodes, symbols, del)).subset_of(
            firsts(nodes, symbols, del).node[i],
        ),
{
    let f = |st: Firsts| first_pass(nodes, symbols, del, st);
    lemma_limit(f, first_start(nodes, symbols), k);
    let st = firsts(nodes, symbols, del);
    assert(f(st) == st);
    assert(first_pass(nodes, symbols, del, st).node[i] == st.node[i].union(
        node_first(nodes[i], del[i], st),
    ));
    assert forall|t: usize| own_first(nodes[i], st).contains(t) implies st.node[i].contains(t) by {
        assert(node_first(nodes[i], del[i], st).contains(t));
        assert(st.node[i].union(node_first(nodes[i], del[i], st)).contains(t));
    }
}

/// The start sets are as many as there are symbols and nodes.
pub proof fn lemma_first_lengths(nodes: Seq<NodeObject>, symbols: Seq<Symbol>, del: Seq<bool>, k: nat)
    requires
        first_settles(nodes, symbols, del, k),
    ensures
        firsts(nodes, symbols, del).sym.len() == symbols.len(),
        firsts(nodes, symbols, del).node.len() == nodes.len(),
{
    let f = |st: Firsts| first_pass(nodes, symbols, del, st);
    lemma_limit(f, first_start(nodes, symbols), k);
    assert(f(limit(f, first_start(nodes, symbols))) == limit(f, first_start(nodes, symbols)));
}

} // verus!
