//! From the graphs of the tokens to the automaton that the scanner starts
//! from, and what can be wrong with the graphs.
//!
//! The places of the automaton are the nodes of the graph. A node for a
//! character matches that character and a node for a character class the
//! characters of the class; every other node matches nothing. Matching a
//! node leads to the nodes that can match the first character of what
//! follows and, where what follows is deletable, to the end marks of the
//! tokens that the node belongs to.

use crate::automaton::{determinizes, folds, minimal, Dfa, Nfa, NfaTable};
use crate::deletable::{deletables, flag_at, DelTable};
use crate::dfa::{CharSet, MAX_CHAR};
use crate::first::{lemma_union_upto_more, lemma_union_upto_none, set_at, union_at, union_upto};
use crate::first::{first_found, firsts, FirstTable};
use crate::owner::{lemma_owner_lengths, owner_found, owners};
use crate::tab::{bits, sets_of, CharClass, InternalError, NodeObject, NodeRef, NodeType, State};
use crate::tab::{Symbol, Tab};
use crate::tab::{bitset_contains, bitset_insert, bitset_new};
use bit_set::BitSet;
use vstd::prelude::*;

verus! {

/// What the automaton is made from: the graph, the symbols, the character
/// classes, for each node what can start the rest of its graph from it on,
/// whether that rest is deletable, and the symbols that the node belongs
/// to.
pub struct ScannerBase {
    pub nodes: Seq<NodeObject>,
    pub symbols: Seq<Symbol>,
    pub classes: Seq<CharClass>,
    pub first: Seq<Set<usize>>,
    pub del: Seq<bool>,
    pub owners: Seq<Set<usize>>,
}

/// Whether the symbol is one that the scanner recognises: a terminal or a
/// pragma.
pub open spec fn is_token(sym: Symbol) -> bool {
    sym.typ == NodeType::T.spec_code() || sym.typ == NodeType::Pr.spec_code()
}

/// The characters that the node at `p` matches.
pub open spec fn node_chars(b: ScannerBase, p: int) -> Set<int> {
    let node = b.nodes[p];
    match node.typ {
        NodeType::Chr => if 0 <= node.val <= MAX_CHAR {
            set![node.val as int]
        } else {
            Set::empty()
        },
        NodeType::Clas => if 0 <= node.val < b.classes.len() {
            b.classes[node.val as int].set@
        } else {
            Set::empty()
        },
        _ => Set::empty(),
    }
}

/// The end mark of the token `t`, if the node at `p` belongs to it.
pub open spec fn mark_part(b: ScannerBase, p: int, t: int) -> Set<usize> {
    if is_token(b.symbols[t]) && b.owners[p].contains(t as usize) {
        set![(b.nodes.len() + t) as usize]
    } else {
        Set::empty()
    }
}

/// Where matching the node at `p` leads.
pub open spec fn node_next(b: ScannerBase, p: int) -> Set<usize> {
    set_at(b.first, b.nodes[p].next).union(
        if flag_at(b.del, b.nodes[p].next) {
            union_upto(|t: int| mark_part(b, p, t), b.symbols.len() as int)
        } else {
            Set::empty()
        },
    )
}

/// Where the token `t` starts: at the nodes that can match its first
/// character, and at its end mark if it is deletable.
pub open spec fn start_part(b: ScannerBase, t: int) -> Set<usize> {
    let sym = b.symbols[t];
    if is_token(sym) && sym.graph is Some {
        set_at(b.first, sym.graph).union(
            if flag_at(b.del, sym.graph) {
                set![(b.nodes.len() + t) as usize]
            } else {
                Set::empty()
            },
        )
    } else {
        Set::empty()
    }
}

/// The automaton of the tokens.
pub open spec fn scanner_nfa(b: ScannerBase) -> Nfa {
    Nfa {
        chars: Seq::new(b.nodes.len(), |p: int| node_chars(b, p)),
        next: Seq::new(b.nodes.len(), |p: int| node_next(b, p)),
        start: union_upto(|t: int| start_part(b, t), b.symbols.len() as int),
        tokens: b.symbols.len(),
    }
}

/// What can be wrong with the graph of a token.
#[derive(Clone, Copy, Debug, PartialEq, Eq, Structural)]
pub enum TokenTrouble {
    /// the token is defined by way of a nonterminal
    ReachesNonterminal,
    /// a node stands for a terminal or for any symbol, where only
    /// characters can stand
    NotACharacter,
    /// a node stands for a character class that has not been declared
    UndeclaredClass,
    /// a node stands for a character class without characters
    EmptyClass,
}

/// An error in the definition of the token `sym`, which is declared on
/// line `line`, at the node `node`.
#[derive(Clone, Copy, Debug, PartialEq, Eq, Structural)]
pub struct TokenError {
    pub kind: TokenTrouble,
    pub sym: usize,
    pub node: usize,
    pub line: i32,
}

/// What is wrong at the node at `p`, if it is in the graph of a token.
pub open spec fn token_trouble(b: ScannerBase, p: int) -> Option<TokenTrouble> {
    let node = b.nodes[p];
    match node.typ {
        NodeType::Nt => Some(TokenTrouble::ReachesNonterminal),
        NodeType::T | NodeType::Wt | NodeType::Any => Some(TokenTrouble::NotACharacter),
        NodeType::Clas => if !(0 <= node.val < b.classes.len()) {
            Some(TokenTrouble::UndeclaredClass)
        } else if b.classes[node.val as int].set@ == Set::<int>::empty() {
            Some(TokenTrouble::EmptyClass)
        } else {
            None
        },
        _ => None,
    }
}

/// The errors at the node at `p` for the first `n` symbols: one for each
/// token among them that the node belongs to, if something is wrong at the
/// node.
pub open spec fn node_errors(b: ScannerBase, p: int, n: int) -> Seq<TokenError>
    decreases n,
{
    if n <= 0 {
        Seq::empty()
    } else {
        let rest = node_errors(b, p, n - 1);
        match token_trouble(b, p) {
            Some(kind) if is_token(b.symbols[n - 1]) && b.owners[p].contains((n - 1) as usize) =>
                rest.push(
                TokenError {
                    kind,
                    sym: (n - 1) as usize,
                    node: p as usize,
                    line: b.symbols[n - 1].line,
                },
            ),
            _ => rest,
        }
    }
}

/// The errors at the first `n` nodes.
pub open spec fn errors_upto(b: ScannerBase, n: int) -> Seq<TokenError>
    decreases n,
{
    if n <= 0 {
        Seq::empty()
    } else {
        errors_upto(b, n - 1) + node_errors(b, n - 1, b.symbols.len() as int)
    }
}

/// All errors in the definitions of the tokens, node by node and for each
/// node token by token.
pub open spec fn token_errors(b: ScannerBase) -> Seq<TokenError> {
    errors_upto(b, b.nodes.len() as int)
}

/// What the automaton of a grammar is made from, once what is deletable,
/// the start sets and the owners of the nodes have been found.
pub open spec fn scanner_base(
    nodes: Seq<NodeObject>,
    symbols: Seq<Symbol>,
    classes: Seq<CharClass>,
) -> ScannerBase {
    let del = deletables(nodes, symbols);
    ScannerBase {
        nodes,
        symbols,
        classes,
        first: firsts(nodes, symbols, del.node).node,
        del: del.graph,
        owners: owners(nodes, symbols),
    }
}

/// Whether the analyses that the automaton is made from all come to rest
/// before they have passed their ceilings.
pub open spec fn scanner_found(nodes: Seq<NodeObject>, symbols: Seq<Symbol>) -> bool {
    first_found(nodes, symbols, deletables(nodes, symbols).node) && owner_found(nodes, symbols)
}

/// Why there is no automaton.
pub enum ScannerError {
    /// an analysis has not come to rest
    Internal(InternalError),
    /// the definitions of the tokens are in error
    Grammar(Vec<TokenError>),
}

impl Tab {
    /// What the automaton is made from, given the tables of the analyses.
    pub open spec fn scanner_input(
        &self,
        del: &DelTable,
        first: &FirstTable,
        owners: &Vec<BitSet>,
    ) -> ScannerBase {
        ScannerBase {
            nodes: self.nodes(),
            symbols: self.symbols(),
            classes: self.classes(),
            first: first@.node,
            del: del@.graph,
            owners: sets_of(owners@),
        }
    }

    /// Whether the symbol `t` is a terminal or a pragma.
    fn token_at(&self, t: usize) -> (b: bool)
        requires
            t < self.symbols().len(),
        ensures
            b == is_token(self.symbols()[t as int]),
    {
        let typ = self.sym(t).typ;
        typ == NodeType::T.code() || typ == NodeType::Pr.code()
    }

    /// The characters that the node `p` matches.
    fn chars_of(&self, p: usize, Ghost(b): Ghost<ScannerBase>) -> (set: CharSet)
        requires
            self.wf(),
            b.nodes == self.nodes(),
            b.classes == self.classes(),
            p < self.nodes().len(),
        ensures
            set@ == node_chars(b, p as int),
    {
        let node = self.node(NodeRef { n: p });
        let mut set = CharSet::new();
        match node.typ {
            NodeType::Chr => {
                if 0 <= node.val && node.val <= MAX_CHAR {
                    set.set(node.val);
                    assert(set@ =~= set![node.val as int]);
                }
            },
            NodeType::Clas => {
                if 0 <= node.val && (node.val as usize) < self.class_count() {
                    set = self.char_class_set(node.val as usize).copy();
                }
            },
            _ => {},
        }
        set
    }

    /// Where matching the node `p` leads.
    fn next_of(
        &self,
        del: &DelTable,
        first: &FirstTable,
        owners: &Vec<BitSet>,
        p: usize,
        Ghost(b): Ghost<ScannerBase>,
    ) -> (set: BitSet)
        requires
            self.wf(),
            b == self.scanner_input(del, first, owners),
            owners@.len() == self.nodes().len(),
            p < self.nodes().len(),
        ensures
            bits(set) == node_next(b, p as int),
    {
        let node = self.node(NodeRef { n: p });
        let n = self.node_count();
        let mut set = bitset_new();
        union_at(&mut set, &first.node, node.next);
        let ghost lead = bits(set);
        assert(lead =~= set_at(b.first, b.nodes[p as int].next));
        if del.del_graph(node.next) {
            let ghost parts = |t: int| mark_part(b, p as int, t);
            proof {
                lemma_union_upto_none(parts);
                assert(bits(set) =~= lead.union(union_upto(parts, 0)));
            }
            let mut t: usize = 0;
            while t < self.sym_count()
                invariant
                    self.wf(),
                    b == self.scanner_input(del, first, owners),
                    owners@.len() == self.nodes().len(),
                    p < self.nodes().len(),
                    n == self.nodes().len(),
                    parts == (|t: int| mark_part(b, p as int, t)),
                    0 <= t <= self.symbols().len(),
                    bits(set) == lead.union(union_upto(parts, t as int)),
                decreases self.symbols().len() - t,
            {
                let ghost before = bits(set);
                if self.token_at(t) && bitset_contains(&owners[p], t) {
                    bitset_insert(&mut set, n + t);
                }
                proof {
                    lemma_union_upto_more(parts, t as int);
                    assert(bits(set) =~= before.union(parts(t as int)));
                    assert(bits(set) =~= lead.union(union_upto(parts, t + 1)));
                }
                t += 1;
            }
        } else {
            assert(bits(set) =~= node_next(b, p as int));
        }
        set
    }

    /// Where the tokens start.
    fn start_of(&self, del: &DelTable, first: &FirstTable, Ghost(b): Ghost<ScannerBase>) -> (set:
        BitSet)
        requires
            self.wf(),
            b.nodes == self.nodes(),
            b.symbols == self.symbols(),
            b.first == first@.node,
            b.del == del@.graph,
        ensures
            bits(set) == union_upto(|t: int| start_part(b, t), self.symbols().len() as int),
    {
        let ghost parts = |t: int| start_part(b, t);
        let n = self.node_count();
        let mut set = bitset_new();
        proof {
            lemma_union_upto_none(parts);
        }
        let mut t: usize = 0;
        while t < self.sym_count()
            invariant
                self.wf(),
                b.nodes == self.nodes(),
                b.symbols == self.symbols(),
                b.first == first@.node,
                b.del == del@.graph,
                n == self.nodes().len(),
                parts == (|t: int| start_part(b, t)),
                0 <= t <= self.symbols().len(),
                bits(set) == union_upto(parts, t as int),
            decreases self.symbols().len() - t,
        {
            let ghost before = bits(set);
            let graph = self.sym(t).graph;
            if self.token_at(t) && graph.is_some() {
                union_at(&mut set, &first.node, graph);
                if del.del_graph(graph) {
                    bitset_insert(&mut set, n + t);
                }
            }
            proof {
                lemma_union_upto_more(parts, t as int);
                assert(bits(set) =~= before.union(parts(t as int)));
            }
            t += 1;
        }
        set
    }

    /// The automaton of the tokens, given what is deletable, what can start
    /// the rest of a graph from each node on, and the symbols that each
    /// node belongs to.
    pub fn scanner_nfa(&self, del: &DelTable, first: &FirstTable, owners: &Vec<BitSet>) -> (table:
        NfaTable)
        requires
            self.wf(),
            owners@.len() == self.nodes().len(),
        ensures
            table.wf(),
            table@ == scanner_nfa(self.scanner_input(del, first, owners)),
    {
        let ghost b = self.scanner_input(del, first, owners);
        let mut chars: Vec<CharSet> = Vec::new();
        let mut next: Vec<BitSet> = Vec::new();
        let mut p: usize = 0;
        while p < self.node_count()
            invariant
                self.wf(),
                b == self.scanner_input(del, first, owners),
                owners@.len() == self.nodes().len(),
                0 <= p <= self.nodes().len(),
                chars@.len() == p,
                next@.len() == p,
                forall|q: int| 0 <= q < p ==> (#[trigger] chars@[q])@ == node_chars(b, q),
                forall|q: int| 0 <= q < p ==> bits(#[trigger] next@[q]) == node_next(b, q),
            decreases self.nodes().len() - p,
        {
            let set = self.chars_of(p, Ghost(b));
            chars.push(set);
            let to = self.next_of(del, first, owners, p, Ghost(b));
            next.push(to);
            p += 1;
        }
        let start = self.start_of(del, first, Ghost(b));
        let table = NfaTable { chars, next, start, tokens: self.sym_count() };
        proof {
            let want = scanner_nfa(b);
            assert(table@.chars =~= want.chars);
            assert(table@.next =~= want.next);
        }
        table
    }

    /// What is wrong at the node `p`, if it is in the graph of a token.
    fn token_trouble_at(&self, p: usize, Ghost(b): Ghost<ScannerBase>) -> (found: Option<
        TokenTrouble,
    >)
        requires
            self.wf(),
            b.nodes == self.nodes(),
            b.classes == self.classes(),
            p < self.nodes().len(),
        ensures
            found == token_trouble(b, p as int),
    {
        let node = self.node(NodeRef { n: p });
        match node.typ {
            NodeType::Nt => Some(TokenTrouble::ReachesNonterminal),
            NodeType::T | NodeType::Wt | NodeType::Any => Some(TokenTrouble::NotACharacter),
            NodeType::Clas => {
                if !(0 <= node.val && (node.val as usize) < self.class_count()) {
                    Some(TokenTrouble::UndeclaredClass)
                } else {
                    let set = self.char_class_set(node.val as usize);
                    if set.first() == -1 {
                        Some(TokenTrouble::EmptyClass)
                    } else {
                        None
                    }
                }
            },
            _ => None,
        }
    }

    /// The errors in the definitions of the tokens, given the symbols that
    /// each node belongs to: node by node, and for each node once for each
    /// token that it belongs to.
    pub fn token_errors(&self, del: &DelTable, first: &FirstTable, owners: &Vec<BitSet>) -> (list:
        Vec<TokenError>)
        requires
            self.wf(),
            owners@.len() == self.nodes().len(),
        ensures
            list@ == token_errors(self.scanner_input(del, first, owners)),
    {
        let ghost b = self.scanner_input(del, first, owners);
        let mut list: Vec<TokenError> = Vec::new();
        let mut p: usize = 0;
        assert(list@ =~= errors_upto(b, 0));
        while p < self.node_count()
            invariant
                self.wf(),
                b == self.scanner_input(del, first, owners),
                owners@.len() == self.nodes().len(),
                0 <= p <= self.nodes().len(),
                list@ == errors_upto(b, p as int),
            decreases self.nodes().len() - p,
        {
            let found = self.token_trouble_at(p, Ghost(b));
            let ghost before = list@;
            let mut t: usize = 0;
            assert(list@ =~= before + node_errors(b, p as int, 0));
            while t < self.sym_count()
                invariant
                    self.wf(),
                    b == self.scanner_input(del, first, owners),
                    owners@.len() == self.nodes().len(),
                    p < self.nodes().len(),
                    0 <= t <= self.symbols().len(),
                    found == token_trouble(b, p as int),
                    list@ == before + node_errors(b, p as int, t as int),
                decreases self.symbols().len() - t,
            {
                let ghost so_far = list@;
                match found {
                    Some(kind) => {
                        if self.token_at(t) && bitset_contains(&owners[p], t) {
                            let error = TokenError { kind, sym: t, node: p, line: self.sym(t).line };
                            list.push(error);
                            assert(list@ =~= so_far.push(error));
                        }
                    },
                    None => {},
                }
                assert(list@ =~= before + node_errors(b, p as int, t + 1));
                t += 1;
            }
            assert(list@ =~= errors_upto(b, p + 1));
            p += 1;
        }
        list
    }

    /// The automaton of the scanner: the automaton of the tokens made
    /// deterministic and folded, if the definitions of the tokens are
    /// without error.
    ///
    /// What is deletable, what can start the rest of a graph from each node
    /// on and the owners of the nodes are found first; where one of these
    /// analyses fails, there is no automaton.
    pub fn make_scanner(&self) -> (made: Result<Dfa, ScannerError>)
        requires
            self.wf(),
        ensures
            match made {
                Ok(dfa) => {
                    let b = scanner_base(self.nodes(), self.symbols(), self.classes());
                    &&& scanner_found(self.nodes(), self.symbols())
                    &&& token_errors(b).len() == 0
                    &&& dfa.wf()
                    &&& minimal(dfa.states())
                    &&& exists|full: Seq<State>, map: Seq<usize>|
                        #[trigger] determinizes(full, scanner_nfa(b)) && #[trigger] folds(
                            full,
                            dfa.states(),
                            map,
                        )
                },
                Err(ScannerError::Internal(e)) => e == InternalError::NoFixedPoint
                    && !scanner_found(self.nodes(), self.symbols()),
                Err(ScannerError::Grammar(list)) => {
                    let b = scanner_base(self.nodes(), self.symbols(), self.classes());
                    &&& scanner_found(self.nodes(), self.symbols())
                    &&& list@ == token_errors(b)
                    &&& list@.len() > 0
                },
            },
    {
        let del = self.deletability();
        let first = match self.first_sets(&del) {
            Ok(first) => first,
            Err(e) => {
                return Err(ScannerError::Internal(e));
            },
        };
        let owners = match self.owner_sets() {
            Ok(owners) => owners,
            Err(e) => {
                return Err(ScannerError::Internal(e));
            },
        };
        proof {
            lemma_owner_lengths(self.nodes(), self.symbols());
            assert(self.scanner_input(&del, &first, &owners) == scanner_base(
                self.nodes(),
                self.symbols(),
                self.classes(),
            ));
        }
        let errors = self.token_errors(&del, &first, &owners);
        if errors.len() > 0 {
            return Err(ScannerError::Grammar(errors));
        }
        let nfa = self.scanner_nfa(&del, &first, &owners);
        let full = nfa.determinize();
        let ghost before = full.states();
        let (dfa, map) = full.minimize();
        assert(determinizes(before, nfa@) && folds(before, dfa.states(), map@));
        Ok(dfa)
    }
}

} // verus!
