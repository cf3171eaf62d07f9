//! Where a grammar is not LL(1): where one terminal ahead does not tell
//! the parser which way to go.

use crate::deletable::{deletables, flag_at, DelTable};
use crate::first::{first_found, firsts, set_at, union_at, FirstTable};
use crate::follow::{follow_base, follow_found, follows, FollowTable};
use crate::owner::{owner_found, owners};
use crate::tab::{bits, holds_nothing, sets_of, InternalError, Node, NodeObject, NodeRef};
use crate::tab::{bitset_clone, bitset_contains, bitset_intersection, bitset_new};
use crate::tab::{bitset_union_with, NodeType, Symbol, Tab};
use bit_set::BitSet;
use vstd::prelude::*;

verus! {

/// What is wrong at a node.
#[derive(Clone, Copy, Debug, PartialEq, Eq, Structural)]
pub enum ConflictKind {
    /// an alternative without a resolver can start with terminals that a
    /// later alternative of the same choice can start with too
    Alternatives,
    /// the body of an option or of an iteration, without a resolver, can
    /// start with terminals that can come behind it too
    Successor,
    /// a node for any symbol that no symbol is left for
    EmptyAny,
    /// the body of an option or of an iteration is deletable
    DeletableContents,
}

/// One finding: in the production of the nonterminal `sym`, at the node
/// `node`, the terminals `terminals` do not tell the way.
pub struct Conflict {
    pub sym: usize,
    pub node: usize,
    pub kind: ConflictKind,
    pub terminals: BitSet,
}

/// A finding with the terminals as a set.
pub struct Finding {
    pub sym: usize,
    pub node: usize,
    pub kind: ConflictKind,
    pub terminals: Set<usize>,
}

impl View for Conflict {
    type V = Finding;

    open spec fn view(&self) -> Finding {
        Finding { sym: self.sym, node: self.node, kind: self.kind, terminals: bits(self.terminals) }
    }
}

/// What each of the conflicts of `v` says.
pub open spec fn findings_of(v: Seq<Conflict>) -> Seq<Finding> {
    Seq::new(v.len(), |i: int| v[i]@)
}

/// What the conflicts are found from: the graph, the symbols, for each
/// node what can start the rest of the production from it on, whether the
/// rest of its structure and the rest of its production are deletable, what
/// follows its productions and which symbols it belongs to.
pub struct Ll1Base {
    pub nodes: Seq<NodeObject>,
    pub symbols: Seq<Symbol>,
    pub first: Seq<Set<usize>>,
    pub del_sub: Seq<bool>,
    pub del_graph: Seq<bool>,
    pub ctx: Seq<Set<usize>>,
    pub owners: Seq<Set<usize>>,
}

/// The terminals that the parser can meet when it stands before `p`, seen
/// from the node at `i`: what can start the rest of the production from `p`
/// on and, if that rest is deletable, what follows the production.
pub open spec fn expected(b: Ll1Base, p: Node, i: int) -> Set<usize> {
    set_at(b.first, p).union(
        if flag_at(b.del_graph, p) {
            b.ctx[i]
        } else {
            Set::empty()
        },
    )
}

/// Whether `p` leads to a resolver. What starts with a resolver is entered
/// when the resolver says so and not by the terminal ahead.
pub open spec fn resolved(b: Ll1Base, p: Node) -> bool {
    p matches Some(r) && r.n < b.nodes.len() && b.nodes[r.n as int].typ == NodeType::Rslv
}

/// The terminals that make the parser enter the body `p` of the node at
/// `i`: none if the body starts with a resolver, else those that it can
/// meet before the body.
pub open spec fn entering(b: Ll1Base, p: Node, i: int) -> Set<usize> {
    if resolved(b, p) {
        Set::empty()
    } else {
        expected(b, p, i)
    }
}

/// What is wrong at the node at `i`, if anything, and the terminals that
/// it is about.
pub open spec fn trouble(b: Ll1Base, i: int) -> Option<(ConflictKind, Set<usize>)> {
    let node = b.nodes[i];
    match node.typ {
        NodeType::Alt => {
            let both = entering(b, node.sub, i).intersect(expected(b, node.down, i));
            if node.down is Some && both != Set::<usize>::empty() {
                Some((ConflictKind::Alternatives, both))
            } else {
                None
            }
        },
        NodeType::Opt | NodeType::Iter => {
            let both = entering(b, node.sub, i).intersect(expected(b, node.next, i));
            if flag_at(b.del_sub, node.sub) {
                Some((ConflictKind::DeletableContents, Set::empty()))
            } else if both != Set::<usize>::empty() {
                Some((ConflictKind::Successor, both))
            } else {
                None
            }
        },
        NodeType::Any => {
            if bits(node.set) == Set::<usize>::empty() {
                Some((ConflictKind::EmptyAny, Set::empty()))
            } else {
                None
            }
        },
        _ => None,
    }
}

/// The findings at the node at `i` for the first `n` symbols: one for each
/// nonterminal among them that the node belongs to, if something is wrong
/// at the node.
pub open spec fn node_findings(b: Ll1Base, i: int, n: int) -> Seq<Finding>
    decreases n,
{
    if n <= 0 {
        Seq::empty()
    } else {
        let rest = node_findings(b, i, n - 1);
        match trouble(b, i) {
            Some((kind, terminals)) if b.symbols[n - 1].typ == NodeType::Nt.spec_code()
                && b.owners[i].contains((n - 1) as usize) => rest.push(
                Finding { sym: (n - 1) as usize, node: i as usize, kind, terminals },
            ),
            _ => rest,
        }
    }
}

/// The findings at the first `n` nodes.
pub open spec fn findings_upto(b: Ll1Base, n: int) -> Seq<Finding>
    decreases n,
{
    if n <= 0 {
        Seq::empty()
    } else {
        findings_upto(b, n - 1) + node_findings(b, n - 1, b.symbols.len() as int)
    }
}

/// All findings, node by node and for each node symbol by symbol.
pub open spec fn findings(b: Ll1Base) -> Seq<Finding> {
    findings_upto(b, b.nodes.len() as int)
}

/// What the conflicts of a grammar with the start symbol `start` and the
/// end of input `eof` are found from.
pub open spec fn ll1_base(nodes: Seq<NodeObject>, symbols: Seq<Symbol>, start: usize, eof: usize) -> Ll1Base {
    let del = deletables(nodes, symbols);
    Ll1Base {
        nodes,
        symbols,
        first: firsts(nodes, symbols, del.node).node,
        del_sub: del.sub,
        del_graph: del.graph,
        ctx: follows(follow_base(nodes, symbols, start, eof)).ctx,
        owners: owners(nodes, symbols),
    }
}

impl Tab {
    /// What the conflicts are found from, given the tables of the analyses.
    pub open spec fn ll1_input(
        &self,
        del: &DelTable,
        first: &FirstTable,
        follow: &FollowTable,
        owners: &Vec<BitSet>,
    ) -> Ll1Base {
        Ll1Base {
            nodes: self.nodes(),
            symbols: self.symbols(),
            first: first@.node,
            del_sub: del@.sub,
            del_graph: del@.graph,
            ctx: follow@.ctx,
            owners: sets_of(owners@),
        }
    }

    /// The terminals that the parser can meet before `p`, seen from the
    /// node `i`.
    fn expected_at(
        &self,
        del: &DelTable,
        first: &FirstTable,
        follow: &FollowTable,
        p: Node,
        i: usize,
        Ghost(b): Ghost<Ll1Base>,
    ) -> (set: BitSet)
        requires
            b.first == first@.node,
            b.del_graph == del@.graph,
            b.ctx == follow@.ctx,
            i < follow@.ctx.len(),
        ensures
            bits(set) == expected(b, p, i as int),
    {
        let mut set = bitset_new();
        union_at(&mut set, &first.node, p);
        if del.del_graph(p) {
            bitset_union_with(&mut set, &follow.ctx[i]);
        }
        assert(bits(set) =~= expected(b, p, i as int));
        set
    }

    /// The terminals that make the parser enter the body `p` of the node
    /// `i`.
    fn entering_at(
        &self,
        del: &DelTable,
        first: &FirstTable,
        follow: &FollowTable,
        p: Node,
        i: usize,
        Ghost(b): Ghost<Ll1Base>,
    ) -> (set: BitSet)
        requires
            self.wf(),
            b.nodes == self.nodes(),
            b.first == first@.node,
            b.del_graph == del@.graph,
            b.ctx == follow@.ctx,
            i < follow@.ctx.len(),
        ensures
            bits(set) == entering(b, p, i as int),
    {
        let by_resolver = match p {
            Some(r) => r.n < self.node_count() && self.node(r).typ == NodeType::Rslv,
            None => false,
        };
        if by_resolver {
            bitset_new()
        } else {
            self.expected_at(del, first, follow, p, i, Ghost(b))
        }
    }

    /// What is wrong at the node `i`, if anything.
    fn trouble_at(
        &self,
        del: &DelTable,
        first: &FirstTable,
        follow: &FollowTable,
        i: usize,
        Ghost(b): Ghost<Ll1Base>,
    ) -> (found: Option<(ConflictKind, BitSet)>)
        requires
            self.wf(),
            b.nodes == self.nodes(),
            b.first == first@.node,
            b.del_sub == del@.sub,
            b.del_graph == del@.graph,
            b.ctx == follow@.ctx,
            follow@.ctx.len() == self.nodes().len(),
            i < self.nodes().len(),
        ensures
            match found {
                Some((kind, set)) => trouble(b, i as int) == Some((kind, bits(set))),
                None => trouble(b, i as int) is None,
            },
    {
        let node = self.node(NodeRef { n: i });
        match node.typ {
            NodeType::Alt => {
                let one = self.entering_at(del, first, follow, node.sub, i, Ghost(b));
                let other = self.expected_at(del, first, follow, node.down, i, Ghost(b));
                let both = bitset_intersection(&one, &other);
                if node.down.is_some() && !holds_nothing(&both) {
                    Some((ConflictKind::Alternatives, both))
                } else {
                    None
                }
            },
            NodeType::Opt | NodeType::Iter => {
                if del.del_sub_graph(node.sub) {
                    Some((ConflictKind::DeletableContents, bitset_new()))
                } else {
                    let one = self.entering_at(del, first, follow, node.sub, i, Ghost(b));
                    let other = self.expected_at(del, first, follow, node.next, i, Ghost(b));
                    let both = bitset_intersection(&one, &other);
                    if !holds_nothing(&both) {
                        Some((ConflictKind::Successor, both))
                    } else {
                        None
                    }
                }
            },
            NodeType::Any => {
                if holds_nothing(&node.set) {
                    Some((ConflictKind::EmptyAny, bitset_new()))
                } else {
                    None
                }
            },
            _ => None,
        }
    }

    /// The conflicts of the grammar, given what is deletable, the start
    /// sets, the follow sets and the owners of the nodes: node by node, and
    /// for each node once for each nonterminal that it belongs to.
    pub fn conflicts_from(
        &self,
        del: &DelTable,
        first: &FirstTable,
        follow: &FollowTable,
        owners: &Vec<BitSet>,
    ) -> (list: Vec<Conflict>)
        requires
            self.wf(),
            follow@.ctx.len() == self.nodes().len(),
            owners@.len() == self.nodes().len(),
        ensures
            findings_of(list@) == findings(self.ll1_input(del, first, follow, owners)),
    {
        let ghost b = self.ll1_input(del, first, follow, owners);
        let mut list: Vec<Conflict> = Vec::new();
        let mut i: usize = 0;
        assert(findings_of(list@) =~= findings_upto(b, 0));
        while i < self.node_count()
            invariant
                self.wf(),
                b == self.ll1_input(del, first, follow, owners),
                follow@.ctx.len() == self.nodes().len(),
                owners@.len() == self.nodes().len(),
                0 <= i <= self.nodes().len(),
                findings_of(list@) == findings_upto(b, i as int),
            decreases self.nodes().len() - i,
        {
            let found = self.trouble_at(del, first, follow, i, Ghost(b));
            let ghost before = findings_of(list@);
            let mut s: usize = 0;
            assert(findings_of(list@) =~= before + node_findings(b, i as int, 0));
            while s < self.sym_count()
                invariant
                    self.wf(),
                    b == self.ll1_input(del, first, follow, owners),
                    owners@.len() == self.nodes().len(),
                    i < self.nodes().len(),
                    0 <= s <= self.symbols().len(),
                    match found {
                        Some((kind, set)) => trouble(b, i as int) == Some((kind, bits(set))),
                        None => trouble(b, i as int) is None,
                    },
                    findings_of(list@) == before + node_findings(b, i as int, s as int),
                decreases self.symbols().len() - s,
            {
                let ghost so_far = findings_of(list@);
                match &found {
                    Some((kind, set)) => {
                        if self.sym(s).typ == NodeType::Nt.code() && bitset_contains(
                            &owners[i],
                            s,
                        ) {
                            list.push(
                                Conflict { sym: s, node: i, kind: *kind, terminals: bitset_clone(set) },
                            );
                            assert(findings_of(list@) =~= so_far.push(
                                Finding { sym: s, node: i, kind: *kind, terminals: bits(*set) },
                            ));
                        }
                    },
                    None => {},
                }
                assert(findings_of(list@) =~= before + node_findings(b, i as int, s + 1));
                s += 1;
            }
            assert(findings_of(list@) =~= findings_upto(b, i + 1));
            i += 1;
        }
        list
    }

    /// The conflicts of the grammar with the start symbol `start` whose
    /// input ends with the terminal `eof`. What is deletable, the start
    /// sets, the follow sets and the owners of the nodes are found first.
    ///
    /// Fails where `first_sets`, `follow_sets` or `owner_sets` fails.
    pub fn check_ll1(&self, start: usize, eof: usize) -> (found: Result<
        Vec<Conflict>,
        InternalError,
    >)
        requires
            self.wf(),
            eof < usize::MAX,
        ensures
            found is Ok <==> first_found(
                self.nodes(),
                self.symbols(),
                deletables(self.nodes(), self.symbols()).node,
            ) && follow_found(follow_base(self.nodes(), self.symbols(), start, eof))
                && owner_found(self.nodes(), self.symbols()),
            found matches Ok(list) ==> findings_of(list@) == findings(
                ll1_base(self.nodes(), self.symbols(), start, eof),
            ),
            found matches Err(e) ==> e == InternalError::NoFixedPoint,
    {
        let del = self.deletability();
        let first = match self.first_sets(&del) {
            Ok(first) => first,
            Err(e) => {
                return Err(e);
            },
        };
        assert(self.follow_input(&del, &first, start, eof) == follow_base(
            self.nodes(),
            self.symbols(),
            start,
            eof,
        ));
        let follow = match self.follow_sets(&del, &first, start, eof) {
            Ok(follow) => follow,
            Err(e) => {
                return Err(e);
            },
        };
        let owners = match self.owner_sets() {
            Ok(owners) => owners,
            Err(e) => {
                return Err(e);
            },
        };
        proof {
            crate::follow::lemma_follow_lengths(follow_base(self.nodes(), self.symbols(), start, eof));
            crate::owner::lemma_owner_lengths(self.nodes(), self.symbols());
            assert(self.ll1_input(&del, &first, &follow, &owners) == ll1_base(
                self.nodes(),
                self.symbols(),
                start,
                eof,
            ));
        }
        Ok(self.conflicts_from(&del, &first, &follow, &owners))
    }
}

} // verus!
