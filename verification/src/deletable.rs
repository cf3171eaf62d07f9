//! Which parts of a grammar can derive the empty string.
//!
//! The answer is found for all symbols and all nodes of the syntax graph
//! together, in passes that each apply the rules once to what the pass
//! before has found, until a pass finds nothing new.

use crate::fixpoint::{iterate, lemma_limit, limit, settles};
use crate::tab::{Node, NodeObject, NodeRef, NodeType, Symbol, Tab};
use vstd::prelude::*;

verus! {

/// What is known to be deletable: for each symbol, whether it is; for each
/// node, whether the node itself is, whether the rest of its structure from
/// the node on is, and whether the rest of its production from the node on
/// is.
pub struct Del {
    pub sym: Seq<bool>,
    pub node: Seq<bool>,
    pub sub: Seq<bool>,
    pub graph: Seq<bool>,
}

/// The flag of the node that `p` leads to. Where `p` leads nowhere there is
/// nothing left to derive, which counts as deletable.
pub open spec fn flag_at(flags: Seq<bool>, p: Node) -> bool {
    match p {
        None => true,
        Some(r) => r.n < flags.len() && flags[r.n as int],
    }
}

/// The rule for a node by itself: a nonterminal is deletable if its symbol
/// is, a choice if one of its alternatives is, and iterations, options,
/// semantic actions, resolvers, the empty node and synchronization points
/// always are. Nothing else is.
pub open spec fn node_rule(node: NodeObject, st: Del) -> bool {
    match node.typ {
        NodeType::Nt => node.sym matches Some(s) && s < st.sym.len() && st.sym[s as int],
        NodeType::Alt => flag_at(st.sub, node.sub) || (node.down is Some && flag_at(
            st.sub,
            node.down,
        )),
        NodeType::Iter
        | NodeType::Opt
        | NodeType::Sem
        | NodeType::Eps
        | NodeType::Rslv
        | NodeType::Sync => true,
        _ => false,
    }
}

/// The rule for the rest of a structure: the node is deletable, and it is
/// the last of its structure or what follows it is deletable.
pub open spec fn sub_rule(node: NodeObject, i: int, st: Del) -> bool {
    st.node[i] && (node.up || flag_at(st.sub, node.next))
}

/// The rule for the rest of a production: the node is deletable and so is
/// all that follows it.
pub open spec fn graph_rule(node: NodeObject, i: int, st: Del) -> bool {
    st.node[i] && flag_at(st.graph, node.next)
}

/// The rule for a symbol: a nonterminal with a graph is deletable if its
/// graph is.
pub open spec fn sym_rule(sym: Symbol, st: Del) -> bool {
    sym.typ == NodeType::Nt.spec_code() && sym.graph is Some && flag_at(st.graph, sym.graph)
}

/// One pass: what was known stays, and what the rules give from it is
/// added.
pub open spec fn del_pass(nodes: Seq<NodeObject>, symbols: Seq<Symbol>, st: Del) -> Del {
    Del {
        sym: Seq::new(symbols.len(), |s: int| st.sym[s] || sym_rule(symbols[s], st)),
        node: Seq::new(nodes.len(), |i: int| st.node[i] || node_rule(nodes[i], st)),
        sub: Seq::new(nodes.len(), |i: int| st.sub[i] || sub_rule(nodes[i], i, st)),
        graph: Seq::new(nodes.len(), |i: int| st.graph[i] || graph_rule(nodes[i], i, st)),
    }
}

/// Where the passes start: with the symbols that are marked deletable
/// already, and with no node.
pub open spec fn del_start(nodes: Seq<NodeObject>, symbols: Seq<Symbol>) -> Del {
    Del {
        sym: Seq::new(symbols.len(), |s: int| symbols[s].deletable),
        node: Seq::new(nodes.len(), |i: int| false),
        sub: Seq::new(nodes.len(), |i: int| false),
        graph: Seq::new(nodes.len(), |i: int| false),
    }
}

/// What is known after `k` passes.
pub open spec fn del_after(nodes: Seq<NodeObject>, symbols: Seq<Symbol>, k: nat) -> Del {
    iterate(|st: Del| del_pass(nodes, symbols, st), del_start(nodes, symbols), k)
}

/// Whether pass `k + 1` finds nothing new.
pub open spec fn del_settles(nodes: Seq<NodeObject>, symbols: Seq<Symbol>, k: nat) -> bool {
    settles(|st: Del| del_pass(nodes, symbols, st), del_start(nodes, symbols), k)
}

/// What is deletable: what the passes have found when they find nothing
/// new.
pub open spec fn deletables(nodes: Seq<NodeObject>, symbols: Seq<Symbol>) -> Del {
    limit(|st: Del| del_pass(nodes, symbols, st), del_start(nodes, symbols))
}

/// The most passes that can each find something new: one for each flag
/// there is.
pub open spec fn del_ceiling(nodes: Seq<NodeObject>, symbols: Seq<Symbol>) -> nat {
    symbols.len() + 3 * nodes.len()
}

/// How many of the flags are set.
pub open spec fn count(flags: Seq<bool>) -> nat
    decreases flags.len(),
{
    if flags.len() == 0 {
        0
    } else {
        count(flags.drop_last()) + if flags.last() {
            1nat
        } else {
            0nat
        }
    }
}

/// How many flags are set in all.
pub open spec fn total(st: Del) -> nat {
    count(st.sym) + count(st.node) + count(st.sub) + count(st.graph)
}

/// Whether every flag that is set in `a` is set in `b`.
pub open spec fn within(a: Seq<bool>, b: Seq<bool>) -> bool {
    a.len() == b.len() && forall|i: int| 0 <= i < a.len() ==> (a[i] ==> b[i])
}

/// No more flags are set than there are.
proof fn lemma_count_bound(a: Seq<bool>)
    ensures
        count(a) <= a.len(),
    decreases a.len(),
{
    if a.len() > 0 {
        lemma_count_bound(a.drop_last());
    }
}

/// Flags that hold all the set flags of others are no fewer, and more if
/// they are not the same.
proof fn lemma_count_grows(a: Seq<bool>, b: Seq<bool>)
    requires
        within(a, b),
    ensures
        count(a) <= count(b),
        a != b ==> count(a) < count(b),
    decreases a.len(),
{
    if a.len() > 0 {
        let a1 = a.drop_last();
        let b1 = b.drop_last();
        assert(within(a1, b1));
        lemma_count_grows(a1, b1);
        assert(a.last() == a[a.len() - 1]);
        assert(b.last() == b[b.len() - 1]);
        if a != b && a.last() == b.last() {
            if a1 == b1 {
                assert(a =~= a1.push(a.last()));
                assert(b =~= b1.push(b.last()));
            }
        }
    } else {
        assert(a =~= b);
    }
}

/// A pass takes no flag back.
proof fn lemma_pass_keeps(nodes: Seq<NodeObject>, symbols: Seq<Symbol>, st: Del)
    requires
        st.sym.len() == symbols.len(),
        st.node.len() == nodes.len(),
        st.sub.len() == nodes.len(),
        st.graph.len() == nodes.len(),
    ensures
        within(st.sym, del_pass(nodes, symbols, st).sym),
        within(st.node, del_pass(nodes, symbols, st).node),
        within(st.sub, del_pass(nodes, symbols, st).sub),
        within(st.graph, del_pass(nodes, symbols, st).graph),
{
}

/// Whether the passes find nothing new before they have passed their
/// ceiling.
pub open spec fn del_found(nodes: Seq<NodeObject>, symbols: Seq<Symbol>) -> bool {
    exists|k: nat| k <= del_ceiling(nodes, symbols) && del_settles(nodes, symbols, k)
}

/// What has been found deletable, as the analysis keeps it.
pub struct DelTable {
    pub sym: Vec<bool>,
    pub node: Vec<bool>,
    pub sub: Vec<bool>,
    pub graph: Vec<bool>,
}

impl View for DelTable {
    type V = Del;

    open spec fn view(&self) -> Del {
        Del { sym: self.sym@, node: self.node@, sub: self.sub@, graph: self.graph@ }
    }
}

/// Whether the two lists hold the same flags.
fn same_flags(a: &Vec<bool>, b: &Vec<bool>) -> (same: bool)
    ensures
        same == (a@ == b@),
{
    if a.len() != b.len() {
        return false;
    }
    let mut k: usize = 0;
    while k < a.len()
        invariant
            0 <= k <= a@.len(),
            a@.len() == b@.len(),
            a@.take(k as int) == b@.take(k as int),
        decreases a@.len() - k,
    {
        if a[k] != b[k] {
            return false;
        }
        assert(a@.take(k + 1) =~= a@.take(k as int).push(a@[k as int]));
        assert(b@.take(k + 1) =~= b@.take(k as int).push(b@[k as int]));
        k += 1;
    }
    assert(a@ =~= a@.take(k as int));
    assert(b@ =~= b@.take(k as int));
    true
}

/// The flag of the node that `p` leads to.
fn get_flag(flags: &Vec<bool>, p: Node) -> (flag: bool)
    ensures
        flag == flag_at(flags@, p),
{
    match p {
        None => true,
        Some(r) => r.n < flags.len() && flags[r.n],
    }
}

impl DelTable {
    /// Whether the node `p` is deletable.
    pub fn del_node(&self, p: NodeRef) -> (d: bool)
        ensures
            d == (p.n < self@.node.len() && self@.node[p.n as int]),
    {
        p.n < self.node.len() && self.node[p.n]
    }

    /// Whether the rest of the structure from `p` on is deletable.
    pub fn del_sub_graph(&self, p: Node) -> (d: bool)
        ensures
            d == flag_at(self@.sub, p),
    {
        get_flag(&self.sub, p)
    }

    /// Whether the rest of the production from `p` on is deletable.
    pub fn del_graph(&self, p: Node) -> (d: bool)
        ensures
            d == flag_at(self@.graph, p),
    {
        get_flag(&self.graph, p)
    }

    /// Whether the symbol `s` is deletable.
    pub fn del_sym(&self, s: usize) -> (d: bool)
        ensures
            d == (s < self@.sym.len() && self@.sym[s as int]),
    {
        s < self.sym.len() && self.sym[s]
    }
}

impl Tab {
    /// Where the passes start.
    fn del_begin(&self) -> (st: DelTable)
        requires
            self.wf(),
        ensures
            st@ == del_start(self.nodes(), self.symbols()),
    {
        let mut sym: Vec<bool> = Vec::new();
        let mut s: usize = 0;
        while s < self.sym_count()
            invariant
                0 <= s <= self.symbols().len(),
                sym@.len() == s,
                forall|j: int| 0 <= j < s ==> sym@[j] == self.symbols()[j].deletable,
            decreases self.symbols().len() - s,
        {
            sym.push(self.sym(s).deletable);
            s += 1;
        }
        let mut node: Vec<bool> = Vec::new();
        let mut sub: Vec<bool> = Vec::new();
        let mut graph: Vec<bool> = Vec::new();
        let mut i: usize = 0;
        while i < self.node_count()
            invariant
                0 <= i <= self.nodes().len(),
                node@.len() == i,
                sub@.len() == i,
                graph@.len() == i,
                forall|j: int| 0 <= j < i ==> !node@[j] && !sub@[j] && !graph@[j],
            decreases self.nodes().len() - i,
        {
            node.push(false);
            sub.push(false);
            graph.push(false);
            i += 1;
        }
        let st = DelTable { sym, node, sub, graph };
        proof {
            let want = del_start(self.nodes(), self.symbols());
            assert(st@.sym =~= want.sym);
            assert(st@.node =~= want.node);
            assert(st@.sub =~= want.sub);
            assert(st@.graph =~= want.graph);
        }
        st
    }

    /// One pass over all symbols and nodes.
    fn del_step(&self, st: &DelTable) -> (next: DelTable)
        requires
            self.wf(),
            st@.sym.len() == self.symbols().len(),
            st@.node.len() == self.nodes().len(),
            st@.sub.len() == self.nodes().len(),
            st@.graph.len() == self.nodes().len(),
        ensures
            next@ == del_pass(self.nodes(), self.symbols(), st@),
    {
        let mut sym: Vec<bool> = Vec::new();
        let mut s: usize = 0;
        while s < self.sym_count()
            invariant
                0 <= s <= self.symbols().len(),
                st@.sym.len() == self.symbols().len(),
                sym@.len() == s,
                forall|j: int|
                    0 <= j < s ==> sym@[j] == (st@.sym[j] || sym_rule(self.symbols()[j], st@)),
            decreases self.symbols().len() - s,
        {
            let symbol = self.sym(s);
            let d = st.sym[s] || (symbol.typ == NodeType::Nt.code() && symbol.graph.is_some()
                && get_flag(&st.graph, symbol.graph));
            sym.push(d);
            s += 1;
        }
        let mut node: Vec<bool> = Vec::new();
        let mut sub: Vec<bool> = Vec::new();
        let mut graph: Vec<bool> = Vec::new();
        let mut i: usize = 0;
        while i < self.node_count()
            invariant
                0 <= i <= self.nodes().len(),
                st@.node.len() == self.nodes().len(),
                st@.sub.len() == self.nodes().len(),
                st@.graph.len() == self.nodes().len(),
                node@.len() == i,
                sub@.len() == i,
                graph@.len() == i,
                forall|j: int|
                    0 <= j < i ==> node@[j] == (st@.node[j] || node_rule(self.nodes()[j], st@)),
                forall|j: int|
                    0 <= j < i ==> sub@[j] == (st@.sub[j] || sub_rule(self.nodes()[j], j, st@)),
                forall|j: int|
                    0 <= j < i ==> graph@[j] == (st@.graph[j] || graph_rule(
                        self.nodes()[j],
                        j,
                        st@,
                    )),
            decreases self.nodes().len() - i,
        {
            let p = self.node(NodeRef { n: i });
            let by_rule = match p.typ {
                NodeType::Nt => match p.sym {
                    Some(s) => s < st.sym.len() && st.sym[s],
                    None => false,
                },
                NodeType::Alt => get_flag(&st.sub, p.sub) || (p.down.is_some() && get_flag(
                    &st.sub,
                    p.down,
                )),
                NodeType::Iter
                | NodeType::Opt
                | NodeType::Sem
                | NodeType::Eps
                | NodeType::Rslv
                | NodeType::Sync => true,
                _ => false,
            };
            node.push(st.node[i] || by_rule);
            sub.push(st.sub[i] || (st.node[i] && (p.up || get_flag(&st.sub, p.next))));
            graph.push(st.graph[i] || (st.node[i] && get_flag(&st.graph, p.next)));
            i += 1;
        }
        let next = DelTable { sym, node, sub, graph };
        proof {
            let want = del_pass(self.nodes(), self.symbols(), st@);
            assert(next@.sym =~= want.sym);
            assert(next@.node =~= want.node);
            assert(next@.sub =~= want.sub);
            assert(next@.graph =~= want.graph);
        }
        next
    }

    /// Finds what is deletable, in passes over the symbols and the nodes
    /// until a pass finds nothing new. That comes about before there have
    /// been more passes than the tables have flags, since every pass but the
    /// last sets a flag and none takes one back.
    pub fn deletability(&self) -> (st: DelTable)
        requires
            self.wf(),
        ensures
            del_found(self.nodes(), self.symbols()),
            st@ == deletables(self.nodes(), self.symbols()),
            st@.sym.len() == self.symbols().len(),
            st@.node.len() == self.nodes().len(),
            st@.sub.len() == self.nodes().len(),
            st@.graph.len() == self.nodes().len(),
    {
        let ceiling: u64 = self.sym_count() as u64 + 3 * (self.node_count() as u64);
        let ghost f = |st: Del| del_pass(self.nodes(), self.symbols(), st);
        let ghost x = del_start(self.nodes(), self.symbols());
        let mut st = self.del_begin();
        let mut passes: u64 = 0;
        loop
            invariant
                self.wf(),
                f == (|st: Del| del_pass(self.nodes(), self.symbols(), st)),
                x == del_start(self.nodes(), self.symbols()),
                ceiling == del_ceiling(self.nodes(), self.symbols()),
                0 <= passes <= ceiling,
                passes <= total(st@),
                st@ == iterate(f, x, passes as nat),
                st@.sym.len() == self.symbols().len(),
                st@.node.len() == self.nodes().len(),
                st@.sub.len() == self.nodes().len(),
                st@.graph.len() == self.nodes().len(),
            decreases ceiling - passes,
        {
            let next = self.del_step(&st);
            assert(next@ == f(st@));
            if same_flags(&next.sym, &st.sym) && same_flags(&next.node, &st.node) && same_flags(
                &next.sub,
                &st.sub,
            ) && same_flags(&next.graph, &st.graph) {
                proof {
                    assert(settles(f, x, passes as nat));
                    assert(del_settles(self.nodes(), self.symbols(), passes as nat));
                    lemma_limit(f, x, passes as nat);
                }
                return st;
            }
            proof {
                lemma_pass_keeps(self.nodes(), self.symbols(), st@);
                lemma_count_grows(st@.sym, next@.sym);
                lemma_count_grows(st@.node, next@.node);
                lemma_count_grows(st@.sub, next@.sub);
                lemma_count_grows(st@.graph, next@.graph);
                lemma_count_bound(next@.sym);
                lemma_count_bound(next@.node);
                lemma_count_bound(next@.sub);
                lemma_count_bound(next@.graph);
                assert(total(st@) < total(next@));
                assert(iterate(f, x, (passes + 1) as nat) == f(iterate(f, x, passes as nat)));
            }
            st = next;
            passes += 1;
        }
    }

    /// Marks every symbol that can derive the empty string as deletable.
    /// A symbol that is marked already stays marked.
    pub fn comp_deletable_symbols(&mut self)
        requires
            old(self).wf(),
        ensures
            final(self).wf(),
            final(self).nodes() == old(self).nodes(),
            final(self).classes() == old(self).classes(),
            final(self).symbols().len() == old(self).symbols().len(),
            forall|s: int|
                0 <= s < old(self).symbols().len() ==> #[trigger] final(self).symbols()[s] == (
                Symbol {
                    deletable: deletables(old(self).nodes(), old(self).symbols()).sym[s],
                    ..old(self).symbols()[s]
                }),
            forall|s: int|
                0 <= s < old(self).symbols().len() && old(self).symbols()[s].deletable ==> (
                #[trigger] final(self).symbols()[s]).deletable,
    {
        let st = self.deletability();
        proof {
            assert forall|s: int|
                0 <= s < self.symbols().len() && self.symbols()[s].deletable implies st@.sym[s] by {
                lemma_marked_stays(self.nodes(), self.symbols(), s);
            }
        }
        let mut s: usize = 0;
        while s < self.sym_count()
            invariant
                self.wf(),
                self.nodes() == old(self).nodes(),
                self.classes() == old(self).classes(),
                self.symbols().len() == old(self).symbols().len(),
                st@.sym.len() == self.symbols().len(),
                0 <= s <= self.symbols().len(),
                forall|j: int|
                    0 <= j < s ==> #[trigger] self.symbols()[j] == (Symbol {
                        deletable: st@.sym[j],
                        ..old(self).symbols()[j]
                    }),
                forall|j: int|
                    s <= j < self.symbols().len() ==> self.symbols()[j] == old(self).symbols()[j],
            decreases self.symbols().len() - s,
        {
            self.set_deletable(s, st.sym[s]);
            s += 1;
        }
    }
}

/// A symbol that is marked deletable when the passes start is deletable
/// when they have come to rest.
pub proof fn lemma_marked_stays(nodes: Seq<NodeObject>, symbols: Seq<Symbol>, s: int)
    requires
        exists|k: nat| del_settles(nodes, symbols, k),
        0 <= s < symbols.len(),
        symbols[s].deletable,
    ensures
        deletables(nodes, symbols).sym[s],
{
    let k = choose|k: nat| del_settles(nodes, symbols, k);
    lemma_limit(|st: Del| del_pass(nodes, symbols, st), del_start(nodes, symbols), k);
    lemma_deletable_stays(nodes, symbols, 0, k, s);
}

/// What has been found deletable once is still found deletable after any
/// number of further passes: no pass takes a flag back.
pub proof fn lemma_deletable_stays(
    nodes: Seq<NodeObject>,
    symbols: Seq<Symbol>,
    j: nat,
    k: nat,
    s: int,
)
    requires
        j <= k,
        0 <= s < symbols.len(),
        del_after(nodes, symbols, j).sym[s],
    ensures
        del_after(nodes, symbols, k).sym[s],
        del_after(nodes, symbols, k).sym.len() == symbols.len(),
    decreases k,
{
    let f = |st: Del| del_pass(nodes, symbols, st);
    let x = del_start(nodes, symbols);
    if k > j {
        lemma_deletable_stays(nodes, symbols, j, (k - 1) as nat, s);
        assert(del_after(nodes, symbols, k) == f(iterate(f, x, (k - 1) as nat)));
    } else if k > 0 {
        assert(del_after(nodes, symbols, k) == f(iterate(f, x, (k - 1) as nat)));
    }
}

} // verus!
