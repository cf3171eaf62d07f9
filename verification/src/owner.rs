//! The symbols whose graphs each node of the syntax graph belongs to.
//!
//! A node belongs to the graph of a symbol if the graph starts at it, or if
//! a node of that graph leads to it.

use crate::first::{
    empty_sets, lemma_union_upto_more, lemma_union_upto_none, same_sets, union_upto,
};
use crate::fixpoint::{iterate, lemma_limit, limit, settles};
use crate::follow::links_to;
use crate::tab::{bits, sets_of, InternalError, Node, NodeObject, NodeRef, Symbol, Tab};
use crate::tab::{bitset_clone, bitset_insert, bitset_union_with, leads_to};
use bit_set::BitSet;
use vstd::prelude::*;

verus! {

/// What the node `q` hands on to the node `p`: its owners, if it leads to
/// `p`.
pub open spec fn owner_part(nodes: Seq<NodeObject>, st: Seq<Set<usize>>, p: int, q: int) -> Set<
    usize,
> {
    if links_to(nodes[q], p) {
        st[q]
    } else {
        Set::empty()
    }
}

/// What the symbol `s` hands on to the node `p`: itself, if its graph
/// starts at `p`.
pub open spec fn owner_start(symbols: Seq<Symbol>, p: int, s: int) -> Set<usize> {
    if symbols[s].graph matches Some(r) && r.n == p {
        set![s as usize]
    } else {
        Set::empty()
    }
}

/// The rule for a node: the owners of the nodes that lead to it, and the
/// symbols whose graphs start at it.
pub open spec fn node_owners(
    nodes: Seq<NodeObject>,
    symbols: Seq<Symbol>,
    st: Seq<Set<usize>>,
    p: int,
) -> Set<usize> {
    union_upto(|q: int| owner_part(nodes, st, p, q), nodes.len() as int).union(
        union_upto(|s: int| owner_start(symbols, p, s), symbols.len() as int),
    )
}

/// One pass: what was found stays, and what the rule gives from it is
/// added.
pub open spec fn owner_pass(nodes: Seq<NodeObject>, symbols: Seq<Symbol>, st: Seq<Set<usize>>) -> Seq<
    Set<usize>,
> {
    Seq::new(nodes.len(), |p: int| st[p].union(node_owners(nodes, symbols, st, p)))
}

/// Where the passes start: with no owner for any node.
pub open spec fn owner_start_state(nodes: Seq<NodeObject>) -> Seq<Set<usize>> {
    Seq::new(nodes.len(), |p: int| Set::empty())
}

/// Whether pass `k + 1` finds nothing new.
pub open spec fn owner_settles(nodes: Seq<NodeObject>, symbols: Seq<Symbol>, k: nat) -> bool {
    settles(
        |st: Seq<Set<usize>>| owner_pass(nodes, symbols, st),
        owner_start_state(nodes),
        k,
    )
}

/// The owners of each node: what the passes have found when they find
/// nothing new.
pub open spec fn owners(nodes: Seq<NodeObject>, symbols: Seq<Symbol>) -> Seq<Set<usize>> {
    limit(|st: Seq<Set<usize>>| owner_pass(nodes, symbols, st), owner_start_state(nodes))
}

/// The most passes that the analysis makes before it gives up: one for each
/// symbol that each node could belong to.
pub open spec fn owner_ceiling(nodes: Seq<NodeObject>, symbols: Seq<Symbol>) -> nat {
    nodes.len() * symbols.len()
}

/// Whether the passes find nothing new before they have passed their
/// ceiling.
pub open spec fn owner_found(nodes: Seq<NodeObject>, symbols: Seq<Symbol>) -> bool {
    exists|k: nat| k <= owner_ceiling(nodes, symbols) && owner_settles(nodes, symbols, k)
}

impl Tab {
    /// The owners of the node `p` after one more pass.
    fn owner_step_node(&self, st: &Vec<BitSet>, p: usize) -> (acc: BitSet)
        requires
            self.wf(),
            st@.len() == self.nodes().len(),
            p < self.nodes().len(),
        ensures
            bits(acc) == sets_of(st@)[p as int].union(
                node_owners(self.nodes(), self.symbols(), sets_of(st@), p as int),
            ),
    {
        let ghost from_nodes = |q: int| owner_part(self.nodes(), sets_of(st@), p as int, q);
        let ghost from_syms = |s: int| owner_start(self.symbols(), p as int, s);
        let mut acc = bitset_clone(&st[p]);
        proof {
            lemma_union_upto_none(from_nodes);
            assert(bits(acc) =~= sets_of(st@)[p as int].union(union_upto(from_nodes, 0)));
        }
        let mut q: usize = 0;
        while q < self.node_count()
            invariant
                self.wf(),
                st@.len() == self.nodes().len(),
                p < self.nodes().len(),
                from_nodes == (|q: int| owner_part(self.nodes(), sets_of(st@), p as int, q)),
                0 <= q <= self.nodes().len(),
                bits(acc) == sets_of(st@)[p as int].union(union_upto(from_nodes, q as int)),
            decreases self.nodes().len() - q,
        {
            let node = self.node(NodeRef { n: q });
            let ghost before = bits(acc);
            if leads_to(node.next, p) || leads_to(node.sub, p) || leads_to(node.down, p) {
                bitset_union_with(&mut acc, &st[q]);
            }
            proof {
                lemma_union_upto_more(from_nodes, q as int);
                assert(bits(acc) =~= before.union(from_nodes(q as int)));
                assert(bits(acc) =~= sets_of(st@)[p as int].union(union_upto(from_nodes, q + 1)));
            }
            q += 1;
        }
        let ghost half = bits(acc);
        proof {
            lemma_union_upto_none(from_syms);
            assert(bits(acc) =~= half.union(union_upto(from_syms, 0)));
        }
        let mut s: usize = 0;
        while s < self.sym_count()
            invariant
                self.wf(),
                from_syms == (|s: int| owner_start(self.symbols(), p as int, s)),
                0 <= s <= self.symbols().len(),
                bits(acc) == half.union(union_upto(from_syms, s as int)),
            decreases self.symbols().len() - s,
        {
            let symbol = self.sym(s);
            let ghost before = bits(acc);
            if leads_to(symbol.graph, p) {
                bitset_insert(&mut acc, s);
            }
            proof {
                lemma_union_upto_more(from_syms, s as int);
                assert(bits(acc) =~= before.union(from_syms(s as int)));
                assert(bits(acc) =~= half.union(union_upto(from_syms, s + 1)));
            }
            s += 1;
        }
        assert(bits(acc) =~= sets_of(st@)[p as int].union(
            node_owners(self.nodes(), self.symbols(), sets_of(st@), p as int),
        ));
        acc
    }

    /// One pass over all nodes.
    fn owner_step(&self, st: &Vec<BitSet>) -> (next: Vec<BitSet>)
        requires
            self.wf(),
            st@.len() == self.nodes().len(),
        ensures
            sets_of(next@) == owner_pass(self.nodes(), self.symbols(), sets_of(st@)),
    {
        let mut next: Vec<BitSet> = Vec::new();
        let mut p: usize = 0;
        while p < self.node_count()
            invariant
                self.wf(),
                st@.len() == self.nodes().len(),
                0 <= p <= self.nodes().len(),
                next@.len() == p,
                forall|j: int|
                    0 <= j < p ==> bits(next@[j]) == sets_of(st@)[j].union(
                        node_owners(self.nodes(), self.symbols(), sets_of(st@), j),
                    ),
            decreases self.nodes().len() - p,
        {
            let acc = self.owner_step_node(st, p);
            next.push(acc);
            p += 1;
        }
        assert(sets_of(next@) =~= owner_pass(self.nodes(), self.symbols(), sets_of(st@)));
        next
    }

    /// Finds for each node the symbols whose graphs it belongs to, in
    /// passes over the nodes until a pass finds nothing new.
    ///
    /// Fails if there is still something new after the ceiling of passes.
    pub fn owner_sets(&self) -> (found: Result<Vec<BitSet>, InternalError>)
        requires
            self.wf(),
        ensures
            found is Ok <==> owner_found(self.nodes(), self.symbols()),
            found matches Ok(st) ==> sets_of(st@) == owners(self.nodes(), self.symbols()),
            found matches Err(e) ==> e == InternalError::NoFixedPoint,
    {
        let ns = self.sym_count() as u64;
        let nn = self.node_count() as u64;
        assert(nn * ns <= 0x8000_0000 * 0x8000_0000) by (nonlinear_arith)
            requires
                0 <= ns <= 0x7fff_ffff,
                0 <= nn <= 0x7fff_ffff,
        ;
        let ceiling: u64 = nn * ns;
        let ghost f = |st: Seq<Set<usize>>| owner_pass(self.nodes(), self.symbols(), st);
        let ghost x = owner_start_state(self.nodes());
        let mut st = empty_sets(self.node_count());
        let mut passes: u64 = 0;
        loop
            invariant
                self.wf(),
                f == (|st: Seq<Set<usize>>| owner_pass(self.nodes(), self.symbols(), st)),
                x == owner_start_state(self.nodes()),
                ceiling == owner_ceiling(self.nodes(), self.symbols()),
                0 <= passes <= ceiling,
                sets_of(st@) == iterate(f, x, passes as nat),
                st@.len() == self.nodes().len(),
                forall|k: nat| k < passes ==> !settles(f, x, k),
            decreases ceiling - passes,
        {
            let next = self.owner_step(&st);
            assert(sets_of(next@) == f(sets_of(st@)));
            if same_sets(&next, &st) {
                proof {
                    assert(settles(f, x, passes as nat));
                    assert(owner_settles(self.nodes(), self.symbols(), passes as nat));
                    lemma_limit(f, x, passes as nat);
                }
                return Ok(st);
            }
            assert(!settles(f, x, passes as nat));
            if passes == ceiling {
                return Err(InternalError::NoFixedPoint);
            }
            assert(iterate(f, x, (passes + 1) as nat) == f(iterate(f, x, passes as nat)));
            assert(sets_of(next@).len() == self.nodes().len());
            st = next;
            passes += 1;
        }
    }
}

/// The owner sets are as many as there are nodes.
pub proof fn lemma_owner_lengths(nodes: Seq<NodeObject>, symbols: Seq<Symbol>)
    requires
        exists|k: nat| owner_settles(nodes, symbols, k),
    ensures
        owners(nodes, symbols).len() == nodes.len(),
{
    let f = |st: Seq<Set<usize>>| owner_pass(nodes, symbols, st);
    let k = choose|k: nat| owner_settles(nodes, symbols, k);
    lemma_limit(f, owner_start_state(nodes), k);
    assert(f(limit(f, owner_start_state(nodes))) == limit(f, owner_start_state(nodes)));
}

} // verus!
