//! The terminals that can follow each nonterminal of a grammar.
//!
//! A terminal follows a nonterminal if it can start what stands behind
//! some use of the nonterminal; and if everything behind that use up to the
//! end of the production is deletable, whatever follows the symbol of that
//! production follows the nonterminal too. So each node carries along what
//! follows the productions that it belongs to.

use crate::deletable::{deletables, flag_at, DelTable};
use crate::first::{
    empty_sets, first_found, firsts, lemma_union_upto_more, lemma_union_upto_none, same_sets,
    set_at, union_at, union_upto, FirstTable,
};
use crate::fixpoint::{iterate, lemma_limit, limit, settles};
use crate::tab::{bits, sets_of, InternalError, Node, NodeObject, NodeRef, NodeType, Symbol, Tab};
use crate::tab::{bitset_clone, bitset_insert, bitset_new, bitset_union_with, leads_to};
use bit_set::BitSet;
use vstd::prelude::*;

verus! {

/// The terminals found so far that can follow each symbol, and for each
/// node those that can follow the productions that the node belongs to.
pub struct Follows {
    pub sym: Seq<Set<usize>>,
    pub ctx: Seq<Set<usize>>,
}

/// What the follow sets are found from: the graph, the symbols, what can
/// start the rest of the production from each node on, whether the rest of
/// the production from each node on is deletable, the start symbol of the
/// grammar and the terminal that ends the input.
pub struct FollowBase {
    pub nodes: Seq<NodeObject>,
    pub symbols: Seq<Symbol>,
    pub first: Seq<Set<usize>>,
    pub del: Seq<bool>,
    pub start: usize,
    pub eof: usize,
}

/// Whether one of the links of `q` leads to the node at `p`.
pub open spec fn links_to(q: NodeObject, p: int) -> bool {
    ||| q.next matches Some(r) && r.n == p
    ||| q.sub matches Some(r) && r.n == p
    ||| q.down matches Some(r) && r.n == p
}

/// Whether the graph of the nonterminal `sym` starts at the node at `p`.
pub open spec fn starts_at(sym: Symbol, p: int) -> bool {
    sym.typ == NodeType::Nt.spec_code() && (sym.graph matches Some(r) && r.n == p)
}

/// Whether the node stands for the nonterminal `s`.
pub open spec fn uses(node: NodeObject, s: int) -> bool {
    node.typ == NodeType::Nt && (node.sym matches Some(m) && m == s)
}

/// What the use of a nonterminal at the node `i` brings to the follow set
/// of the nonterminal `s`: nothing unless it is a use of `s`; else what
/// can start the rest of the production behind the node and, if that rest
/// is deletable, what follows the production.
pub open spec fn follow_part(b: FollowBase, st: Follows, s: int, i: int) -> Set<usize> {
    if uses(b.nodes[i], s) {
        set_at(b.first, b.nodes[i].next).union(
            if flag_at(b.del, b.nodes[i].next) {
                st.ctx[i]
            } else {
                Set::empty()
            },
        )
    } else {
        Set::empty()
    }
}

/// What the node `q` hands on to the node `p`: what follows its
/// productions, if it leads to `p`.
pub open spec fn ctx_part(b: FollowBase, st: Follows, p: int, q: int) -> Set<usize> {
    if links_to(b.nodes[q], p) {
        st.ctx[q]
    } else {
        Set::empty()
    }
}

/// What the symbol `s` hands on to the node `p`: what follows it, if its
/// graph starts at `p`.
pub open spec fn ctx_start(b: FollowBase, st: Follows, p: int, s: int) -> Set<usize> {
    if starts_at(b.symbols[s], p) {
        st.sym[s]
    } else {
        Set::empty()
    }
}

/// The rule for a symbol: what its uses bring.
pub open spec fn sym_follow(b: FollowBase, st: Follows, s: int) -> Set<usize> {
    union_upto(|i: int| follow_part(b, st, s, i), b.nodes.len() as int)
}

/// The rule for a node: what the nodes that lead to it hand on, and what
/// the symbols do whose graphs start at it.
pub open spec fn node_ctx(b: FollowBase, st: Follows, p: int) -> Set<usize> {
    union_upto(|q: int| ctx_part(b, st, p, q), b.nodes.len() as int).union(
        union_upto(|s: int| ctx_start(b, st, p, s), b.symbols.len() as int),
    )
}

/// One pass: what was found stays, and what the rules give from it is
/// added.
pub open spec fn follow_pass(b: FollowBase, st: Follows) -> Follows {
    Follows {
        sym: Seq::new(b.symbols.len(), |s: int| st.sym[s].union(sym_follow(b, st, s))),
        ctx: Seq::new(b.nodes.len(), |p: int| st.ctx[p].union(node_ctx(b, st, p))),
    }
}

/// Where the passes start: the end of the input follows the start symbol.
pub open spec fn follow_start(b: FollowBase) -> Follows {
    Follows {
        sym: Seq::new(
            b.symbols.len(),
            |s: int|
                if s == b.start {
                    set![b.eof]
                } else {
                    Set::empty()
                },
        ),
        ctx: Seq::new(b.nodes.len(), |p: int| Set::empty()),
    }
}

/// Whether pass `k + 1` finds nothing new.
pub open spec fn follow_settles(b: FollowBase, k: nat) -> bool {
    settles(|st: Follows| follow_pass(b, st), follow_start(b), k)
}

/// The follow sets: what the passes have found when they find nothing new.
pub open spec fn follows(b: FollowBase) -> Follows {
    limit(|st: Follows| follow_pass(b, st), follow_start(b))
}

/// The most passes that the analysis makes before it gives up: one for each
/// member that each set could take in, if the sets hold the numbers of
/// symbols and of nodes only.
pub open spec fn follow_ceiling(b: FollowBase) -> nat {
    (b.symbols.len() + b.nodes.len()) * (b.symbols.len() + b.nodes.len())
}

/// Whether the passes find nothing new before they have passed their
/// ceiling.
pub open spec fn follow_found(b: FollowBase) -> bool {
    exists|k: nat| k <= follow_ceiling(b) && follow_settles(b, k)
}

/// What the follow sets of a grammar are found from, once what is
/// deletable and the start sets have been found.
pub open spec fn follow_base(
    nodes: Seq<NodeObject>,
    symbols: Seq<Symbol>,
    start: usize,
    eof: usize,
) -> FollowBase {
    let del = deletables(nodes, symbols);
    FollowBase {
        nodes,
        symbols,
        first: firsts(nodes, symbols, del.node).node,
        del: del.graph,
        start,
        eof,
    }
}

/// The follow sets, as the analysis keeps them.
pub struct FollowTable {
    pub sym: Vec<BitSet>,
    pub ctx: Vec<BitSet>,
}

impl View for FollowTable {
    type V = Follows;

    open spec fn view(&self) -> Follows {
        Follows { sym: sets_of(self.sym@), ctx: sets_of(self.ctx@) }
    }
}

impl FollowTable {
    /// The terminals that can follow the symbol `s`.
    pub fn follow_of_sym(&self, s: usize) -> (set: &BitSet)
        requires
            s < self@.sym.len(),
        ensures
            bits(*set) == self@.sym[s as int],
    {
        &self.sym[s]
    }
}

impl Tab {
    /// What the passes work from.
    pub open spec fn follow_input(
        &self,
        del: &DelTable,
        first: &FirstTable,
        start: usize,
        eof: usize,
    ) -> FollowBase {
        FollowBase {
            nodes: self.nodes(),
            symbols: self.symbols(),
            first: first@.node,
            del: del@.graph,
            start,
            eof,
        }
    }

    /// The follow set of the symbol `s` after one more pass.
    fn follow_step_sym(
        &self,
        del: &DelTable,
        first: &FirstTable,
        st: &FollowTable,
        s: usize,
        Ghost(b): Ghost<FollowBase>,
    ) -> (acc: BitSet)
        requires
            self.wf(),
            b.nodes == self.nodes(),
            b.symbols == self.symbols(),
            b.first == first@.node,
            b.del == del@.graph,
            st@.sym.len() == self.symbols().len(),
            st@.ctx.len() == self.nodes().len(),
            s < self.symbols().len(),
        ensures
            bits(acc) == st@.sym[s as int].union(sym_follow(b, st@, s as int)),
    {
        let ghost parts = |i: int| follow_part(b, st@, s as int, i);
        let mut acc = bitset_clone(&st.sym[s]);
        proof {
            lemma_union_upto_none(parts);
            assert(bits(acc) =~= st@.sym[s as int].union(union_upto(parts, 0)));
        }
        let mut i: usize = 0;
        while i < self.node_count()
            invariant
                self.wf(),
                b.nodes == self.nodes(),
                b.first == first@.node,
                b.del == del@.graph,
                st@.ctx.len() == self.nodes().len(),
                parts == (|i: int| follow_part(b, st@, s as int, i)),
                0 <= i <= self.nodes().len(),
                bits(acc) == st@.sym[s as int].union(union_upto(parts, i as int)),
            decreases self.nodes().len() - i,
        {
            let p = self.node(NodeRef { n: i });
            let ghost before = bits(acc);
            let used = match p.typ {
                NodeType::Nt => match p.sym {
                    Some(m) => m == s,
                    None => false,
                },
                _ => false,
            };
            if used {
                union_at(&mut acc, &first.node, p.next);
                let rest_deletable = match p.next {
                    None => true,
                    Some(r) => r.n < del.graph.len() && del.graph[r.n],
                };
                if rest_deletable {
                    bitset_union_with(&mut acc, &st.ctx[i]);
                }
            }
            proof {
                lemma_union_upto_more(parts, i as int);
                assert(bits(acc) =~= before.union(parts(i as int)));
                assert(bits(acc) =~= st@.sym[s as int].union(union_upto(parts, i + 1)));
            }
            i += 1;
        }
        acc
    }

    /// What follows the productions of the node `p` after one more pass.
    fn follow_step_ctx(&self, st: &FollowTable, p: usize, Ghost(b): Ghost<FollowBase>) -> (acc:
        BitSet)
        requires
            self.wf(),
            b.nodes == self.nodes(),
            b.symbols == self.symbols(),
            st@.sym.len() == self.symbols().len(),
            st@.ctx.len() == self.nodes().len(),
            p < self.nodes().len(),
        ensures
            bits(acc) == st@.ctx[p as int].union(node_ctx(b, st@, p as int)),
    {
        let ghost from_nodes = |q: int| ctx_part(b, st@, p as int, q);
        let ghost from_syms = |s: int| ctx_start(b, st@, p as int, s);
        let mut acc = bitset_clone(&st.ctx[p]);
        proof {
            lemma_union_upto_none(from_nodes);
            assert(bits(acc) =~= st@.ctx[p as int].union(union_upto(from_nodes, 0)));
        }
        let mut q: usize = 0;
        while q < self.node_count()
            invariant
                self.wf(),
                b.nodes == self.nodes(),
                st@.ctx.len() == self.nodes().len(),
                from_nodes == (|q: int| ctx_part(b, st@, p as int, q)),
                0 <= q <= self.nodes().len(),
                bits(acc) == st@.ctx[p as int].union(union_upto(from_nodes, q as int)),
            decreases self.nodes().len() - q,
        {
            let node = self.node(NodeRef { n: q });
            let ghost before = bits(acc);
            if leads_to(node.next, p) || leads_to(node.sub, p) || leads_to(node.down, p) {
                bitset_union_with(&mut acc, &st.ctx[q]);
            }
            proof {
                lemma_union_upto_more(from_nodes, q as int);
                assert(bits(acc) =~= before.union(from_nodes(q as int)));
                assert(bits(acc) =~= st@.ctx[p as int].union(union_upto(from_nodes, q + 1)));
            }
            q += 1;
        }
        let ghost half = bits(acc);
        proof {
            lemma_union_upto_none(from_syms);
            assert(bits(acc) =~= half.union(union_upto(from_syms, 0)));
        }
        let mut s: usize = 0;
        while s < self.sym_count()
            invariant
                self.wf(),
                b.symbols == self.symbols(),
                st@.sym.len() == self.symbols().len(),
                from_syms == (|s: int| ctx_start(b, st@, p as int, s)),
                0 <= s <= self.symbols().len(),
                bits(acc) == half.union(union_upto(from_syms, s as int)),
            decreases self.symbols().len() - s,
        {
            let symbol = self.sym(s);
            let ghost before = bits(acc);
            if symbol.typ == NodeType::Nt.code() && leads_to(symbol.graph, p) {
                bitset_union_with(&mut acc, &st.sym[s]);
            }
            proof {
                lemma_union_upto_more(from_syms, s as int);
                assert(bits(acc) =~= before.union(from_syms(s as int)));
                assert(bits(acc) =~= half.union(union_upto(from_syms, s + 1)));
            }
            s += 1;
        }
        assert(bits(acc) =~= st@.ctx[p as int].union(node_ctx(b, st@, p as int)));
        acc
    }

    /// One pass over all symbols and nodes.
    fn follow_step(
        &self,
        del: &DelTable,
        first: &FirstTable,
        st: &FollowTable,
        Ghost(b): Ghost<FollowBase>,
    ) -> (next: FollowTable)
        requires
            self.wf(),
            b.nodes == self.nodes(),
            b.symbols == self.symbols(),
            b.first == first@.node,
            b.del == del@.graph,
            st@.sym.len() == self.symbols().len(),
            st@.ctx.len() == self.nodes().len(),
        ensures
            next@ == follow_pass(b, st@),
    {
        let mut sym: Vec<BitSet> = Vec::new();
        let mut s: usize = 0;
        while s < self.sym_count()
            invariant
                self.wf(),
                b.nodes == self.nodes(),
                b.symbols == self.symbols(),
                b.first == first@.node,
                b.del == del@.graph,
                st@.sym.len() == self.symbols().len(),
                st@.ctx.len() == self.nodes().len(),
                0 <= s <= self.symbols().len(),
                sym@.len() == s,
                forall|j: int|
                    0 <= j < s ==> bits(sym@[j]) == st@.sym[j].union(sym_follow(b, st@, j)),
            decreases self.symbols().len() - s,
        {
            let acc = self.follow_step_sym(del, first, st, s, Ghost(b));
            sym.push(acc);
            s += 1;
        }
        let mut ctx: Vec<BitSet> = Vec::new();
        let mut p: usize = 0;
        while p < self.node_count()
            invariant
                self.wf(),
                b.nodes == self.nodes(),
                b.symbols == self.symbols(),
                st@.sym.len() == self.symbols().len(),
                st@.ctx.len() == self.nodes().len(),
                0 <= p <= self.nodes().len(),
                ctx@.len() == p,
                forall|j: int|
                    0 <= j < p ==> bits(ctx@[j]) == st@.ctx[j].union(node_ctx(b, st@, j)),
            decreases self.nodes().len() - p,
        {
            let acc = self.follow_step_ctx(st, p, Ghost(b));
            ctx.push(acc);
            p += 1;
        }
        let next = FollowTable { sym, ctx };
        proof {
            let want = follow_pass(b, st@);
            assert(next@.sym =~= want.sym);
            assert(next@.ctx =~= want.ctx);
        }
        next
    }

    /// Where the passes start.
    fn follow_begin(&self, start: usize, eof: usize, Ghost(b): Ghost<FollowBase>) -> (st:
        FollowTable)
        requires
            self.wf(),
            b.nodes == self.nodes(),
            b.symbols == self.symbols(),
            b.start == start,
            b.eof == eof,
            eof < usize::MAX,
        ensures
            st@ == follow_start(b),
    {
        let mut sym: Vec<BitSet> = Vec::new();
        let mut s: usize = 0;
        while s < self.sym_count()
            invariant
                0 <= s <= self.symbols().len(),
                eof < usize::MAX,
                sym@.len() == s,
                forall|j: int|
                    0 <= j < s ==> bits(sym@[j]) == (if j == start {
                        set![eof]
                    } else {
                        Set::<usize>::empty()
                    }),
            decreases self.symbols().len() - s,
        {
            let mut set = bitset_new();
            if s == start {
                bitset_insert(&mut set, eof);
                assert(bits(set) =~= set![eof]);
            }
            sym.push(set);
            s += 1;
        }
        let st = FollowTable { sym, ctx: empty_sets(self.node_count()) };
        proof {
            let want = follow_start(b);
            assert(st@.sym =~= want.sym);
            assert(st@.ctx =~= want.ctx);
        }
        st
    }

    /// Finds the follow sets, given what is deletable and the start sets,
    /// for a grammar with the start symbol `start` whose input ends with
    /// the terminal `eof`, in passes over the symbols and the nodes until a
    /// pass finds nothing new.
    ///
    /// Fails if there is still something new after the ceiling of passes.
    pub fn follow_sets(&self, del: &DelTable, first: &FirstTable, start: usize, eof: usize) -> (found:
        Result<FollowTable, InternalError>)
        requires
            self.wf(),
            eof < usize::MAX,
        ensures
            found is Ok <==> follow_found(self.follow_input(del, first, start, eof)),
            found matches Ok(st) ==> st@ == follows(self.follow_input(del, first, start, eof)),
            found matches Err(e) ==> e == InternalError::NoFixedPoint,
    {
        let ghost b = self.follow_input(del, first, start, eof);
        let ns = self.sym_count() as u64;
        let nn = self.node_count() as u64;
        let all: u64 = ns + nn;
        assert(all * all <= 0xffff_fffe * 0xffff_fffe) by (nonlinear_arith)
            requires
                0 <= all <= 0xffff_fffe,
        ;
        let ceiling: u64 = all * all;
        let ghost f = |st: Follows| follow_pass(b, st);
        let ghost x = follow_start(b);
        let mut st = self.follow_begin(start, eof, Ghost(b));
        let mut passes: u64 = 0;
        loop
            invariant
                self.wf(),
                b == self.follow_input(del, first, start, eof),
                f == (|st: Follows| follow_pass(b, st)),
                x == follow_start(b),
                ceiling == follow_ceiling(b),
                0 <= passes <= ceiling,
                st@ == iterate(f, x, passes as nat),
                st@.sym.len() == self.symbols().len(),
                st@.ctx.len() == self.nodes().len(),
                forall|k: nat| k < passes ==> !settles(f, x, k),
            decreases ceiling - passes,
        {
            let next = self.follow_step(del, first, &st, Ghost(b));
            assert(next@ == f(st@));
            if same_sets(&next.sym, &st.sym) && same_sets(&next.ctx, &st.ctx) {
                proof {
                    assert(settles(f, x, passes as nat));
                    assert(follow_settles(b, passes as nat));
                    lemma_limit(f, x, passes as nat);
                }
                return Ok(st);
            }
            assert(!settles(f, x, passes as nat));
            if passes == ceiling {
                return Err(InternalError::NoFixedPoint);
            }
            assert(iterate(f, x, (passes + 1) as nat) == f(iterate(f, x, passes as nat)));
            st = next;
            passes += 1;
        }
    }

    /// Gives every symbol its follow set, for a grammar with the start
    /// symbol `start` whose input ends with the terminal `eof`. What is
    /// deletable and the start sets are found first.
    ///
    /// Fails, and changes nothing, where `first_sets` or `follow_sets`
    /// fails.
    pub fn comp_follow_sets(&mut self, start: usize, eof: usize) -> (done: Result<
        (),
        InternalError,
    >)
        requires
            old(self).wf(),
            eof < usize::MAX,
        ensures
            final(self).wf(),
            final(self).nodes() == old(self).nodes(),
            final(self).classes() == old(self).classes(),
            final(self).symbols().len() == old(self).symbols().len(),
            done is Ok <==> first_found(
                old(self).nodes(),
                old(self).symbols(),
                deletables(old(self).nodes(), old(self).symbols()).node,
            ) && follow_found(follow_base(old(self).nodes(), old(self).symbols(), start, eof)),
            done matches Err(e) ==> e == InternalError::NoFixedPoint && final(self).symbols()
                == old(self).symbols(),
            done is Ok ==> forall|s: int|
                0 <= s < old(self).symbols().len() ==> bits(
                    (#[trigger] final(self).symbols()[s]).follow,
                ) == follows(
                    follow_base(old(self).nodes(), old(self).symbols(), start, eof),
                ).sym[s] && final(self).symbols()[s] == (Symbol {
                    follow: final(self).symbols()[s].follow,
                    ..old(self).symbols()[s]
                }),
    {
        let del = self.deletability();
        let first = match self.first_sets(&del) {
            Ok(first) => first,
            Err(e) => {
                return Err(e);
            },
        };
        assert(self.follow_input(&del, &first, start, eof) == follow_base(
            self.nodes(),
            self.symbols(),
            start,
            eof,
        ));
        let st = match self.follow_sets(&del, &first, start, eof) {
            Ok(st) => st,
            Err(e) => {
                return Err(e);
            },
        };
        let mut s: usize = 0;
        while s < self.sym_count()
            invariant
                self.wf(),
                self.nodes() == old(self).nodes(),
                self.classes() == old(self).classes(),
                self.symbols().len() == old(self).symbols().len(),
                st@.sym.len() == self.symbols().len(),
                0 <= s <= self.symbols().len(),
                forall|j: int|
                    0 <= j < s ==> bits((#[trigger] self.symbols()[j]).follow) == st@.sym[j]
                        && self.symbols()[j] == (Symbol {
                        follow: self.symbols()[j].follow,
                        ..old(self).symbols()[j]
                    }),
                forall|j: int|
                    s <= j < self.symbols().len() ==> self.symbols()[j] == old(self).symbols()[j],
            decreases self.symbols().len() - s,
        {
            let set = bitset_clone(&st.sym[s]);
            self.set_follow(s, set);
            s += 1;
        }
        Ok(())
    }
}

/// The follow sets are as many as there are symbols and nodes.
pub proof fn lemma_follow_lengths(b: FollowBase)
    requires
        exists|k: nat| follow_settles(b, k),
    ensures
        follows(b).sym.len() == b.symbols.len(),
        follows(b).ctx.len() == b.nodes.len(),
{
    let f = |st: Follows| follow_pass(b, st);
    let k = choose|k: nat| follow_settles(b, k);
    lemma_limit(f, follow_start(b), k);
    assert(f(limit(f, follow_start(b))) == limit(f, follow_start(b)));
}

/// When the passes have found nothing new, the follow set of a nonterminal
/// holds, for every node that stands for it, all that can start the rest
/// of the production behind that node.
pub proof fn lemma_follow_holds_what_starts_the_rest(b: FollowBase, k: nat, s: int, i: int)
    requires
        follow_settles(b, k),
        0 <= s < b.symbols.len(),
        0 <= i < b.nodes.len(),
        uses(b.nodes[i], s),
    ensures
        set_at(b.first, b.nodes[i].next).subset_of(follows(b).sym[s]),
{
    let f = |st: Follows| follow_pass(b, st);
    lemma_limit(f, follow_start(b), k);
    let st = follows(b);
    assert(f(st) == st);
    assert(follow_pass(b, st).sym[s] == st.sym[s].union(sym_follow(b, st, s)));
    let parts = |i: int| follow_part(b, st, s, i);
    assert forall|t: usize| set_at(b.first, b.nodes[i].next).contains(t) implies st.sym[s].contains(
        t,
    ) by {
        assert(parts(i).contains(t));
        assert(sym_follow(b, st, s).contains(t));
        assert(st.sym[s].union(sym_follow(b, st, s)).contains(t));
    }
}

/// When all passes have found nothing new, the follow set of a nonterminal
/// holds, for every node that stands for it, all that can start the node
/// behind that node: the terminal, if that node is one, and the start set
/// of the nonterminal, if it is one.
pub proof fn lemma_follow_holds_first_of_successor(
    nodes: Seq<NodeObject>,
    symbols: Seq<Symbol>,
    start: usize,
    eof: usize,
    k: nat,
    j: nat,
    s: int,
    i: int,
)
    requires
        crate::first::first_settles(nodes, symbols, deletables(nodes, symbols).node, k),
        follow_settles(follow_base(nodes, symbols, start, eof), j),
        0 <= s < symbols.len(),
        0 <= i < nodes.len(),
        uses(nodes[i], s),
        nodes[i].next matches Some(r) && r.n < nodes.len(),
    ensures
        crate::first::own_first(
            nodes[nodes[i].next->0.n as int],
            firsts(nodes, symbols, deletables(nodes, symbols).node),
        ).subset_of(follows(follow_base(nodes, symbols, start, eof)).sym[s]),
{
    let del = deletables(nodes, symbols).node;
    let b = follow_base(nodes, symbols, start, eof);
    let q = nodes[i].next->0.n as int;
    crate::first::lemma_first_holds_own(nodes, symbols, del, k, q);
    crate::first::lemma_first_lengths(nodes, symbols, del, k);
    lemma_follow_holds_what_starts_the_rest(b, j, s, i);
    assert(set_at(b.first, nodes[i].next) == firsts(nodes, symbols, del).node[q]);
}

} // verus!
