//! The symbol table and the syntax graph of a grammar.

use crate::dfa::CharSet;
use bit_set::BitSet;
use std::iter::FromIterator;
use std::path::PathBuf;
use vstd::prelude::*;

verus! {

/// `bit_set::BitSet`, a set of small numbers kept as a bit vector.
#[verifier::external_type_specification]
#[verifier::external_body]
#[verifier::reject_recursive_types(B)]
pub struct ExBitSet<B>(BitSet<B>);

/// `std::path::PathBuf`, carried through as it is.
#[verifier::external_type_specification]
#[verifier::external_body]
pub struct ExPathBuf(PathBuf);

/// The numbers that a bit set holds.
pub uninterp spec fn bits(b: BitSet) -> Set<usize>;

/// A bit set is finite: its members are machine words.
pub proof fn lemma_bits_finite(b: BitSet)
    ensures
        bits(b).finite(),
{
    broadcast use vstd::set_lib::full_set_properties;

    assert(Set::<usize>::full().finite());
    vstd::set_lib::lemma_set_subset_finite(Set::<usize>::full(), bits(b));
}

/// `BitSet::new`: a set that holds nothing.
#[verifier::external_body]
pub(crate) fn bitset_new() -> (b: BitSet)
    ensures
        bits(b) == Set::<usize>::empty(),
{
    BitSet::new()
}

/// `BitSet::len`: how many numbers the set holds, counted over its blocks.
#[verifier::external_body]
pub(crate) fn bitset_len(b: &BitSet) -> (n: usize)
    ensures
        n == bits(*b).len(),
{
    b.len()
}

/// `BitSet::eq`: compares what the two sets yield in ascending order, so it
/// holds exactly if they hold the same numbers, whatever their capacities.
#[verifier::external_body]
pub(crate) fn bitset_eq(a: &BitSet, b: &BitSet) -> (r: bool)
    ensures
        r == (bits(*a) == bits(*b)),
{
    a.eq(b)
}

/// `BitSet::intersection`, which yields the numbers that both sets hold,
/// gathered into a set of its own by `BitSet::from_iter`, which inserts
/// what it is given into an empty set.
#[verifier::external_body]
pub(crate) fn bitset_intersection(a: &BitSet, b: &BitSet) -> (r: BitSet)
    ensures
        bits(r) == bits(*a).intersect(bits(*b)),
{
    BitSet::<u32>::from_iter(a.intersection(b))
}

/// `BitSet::clone`: a set of its own that holds the same numbers.
#[verifier::external_body]
pub(crate) fn bitset_clone(b: &BitSet) -> (r: BitSet)
    ensures
        bits(r) == bits(*b),
{
    b.clone()
}

/// `BitSet::insert`: puts `x` into the set, growing the bit vector up to
/// `x` if need be, and says whether `x` was new. The growing overflows on
/// the largest number there is, which is left out.
#[verifier::external_body]
pub(crate) fn bitset_insert(a: &mut BitSet, x: usize) -> (fresh: bool)
    requires
        x < usize::MAX,
    ensures
        bits(*final(a)) == bits(*old(a)).insert(x),
        fresh == !bits(*old(a)).contains(x),
{
    a.insert(x)
}

/// `BitSet::contains`: whether the set holds `x`.
#[verifier::external_body]
pub(crate) fn bitset_contains(a: &BitSet, x: usize) -> (r: bool)
    ensures
        r == bits(*a).contains(x),
{
    a.contains(x)
}

/// `BitSet::union_with`: puts into `a` every number that `b` holds.
#[verifier::external_body]
pub(crate) fn bitset_union_with(a: &mut BitSet, b: &BitSet)
    ensures
        bits(*final(a)) == bits(*old(a)).union(bits(*b)),
{
    a.union_with(b)
}

/// `BitSet::difference_with`: takes out of `a` every number that `b` holds.
#[verifier::external_body]
pub(crate) fn bitset_difference_with(a: &mut BitSet, b: &BitSet)
    ensures
        bits(*final(a)) == bits(*old(a)).difference(bits(*b)),
{
    a.difference_with(b)
}

/// Whether the set holds nothing.
pub(crate) fn holds_nothing(b: &BitSet) -> (r: bool)
    ensures
        r == (bits(*b) == Set::<usize>::empty()),
{
    proof {
        lemma_bits_finite(*b);
        if bits(*b).len() == 0 {
            bits(*b).lemma_len0_is_empty();
            assert(bits(*b) =~= Set::<usize>::empty());
        }
    }
    bitset_len(b) == 0
}

/// What each of the bit sets of `v` holds.
pub open spec fn sets_of(v: Seq<BitSet>) -> Seq<Set<usize>> {
    Seq::new(v.len(), |i: int| bits(v[i]))
}

/// Operations on the bit sets of the symbol table.
pub struct Sets();

impl Sets {
    /// The number of members, cut to 32 bits.
    pub fn elements(b: &BitSet) -> (n: i32)
        ensures
            bits(*b).finite(),
            n == bits(*b).len() as i32,
    {
        proof {
            lemma_bits_finite(*b);
        }
        #[verifier::truncate]
        (bitset_len(b) as i32)
    }

    /// Whether the two sets have the same members.
    pub fn equals(a: &BitSet, b: &BitSet) -> (r: bool)
        ensures
            r == (bits(*a) == bits(*b)),
    {
        bitset_eq(a, b)
    }

    /// Whether the two sets share a member.
    pub fn intersects(a: &BitSet, b: &BitSet) -> (r: bool)
        ensures
            r == !bits(*a).disjoint(bits(*b)),
    {
        let both = bitset_intersection(a, b);
        let n = bitset_len(&both);
        proof {
            lemma_bits_finite(both);
            if n == 0 {
                bits(both).lemma_len0_is_empty();
                assert forall|x: usize| bits(*a).contains(x) implies !bits(*b).contains(x) by {
                    assert(!bits(both).contains(x));
                }
            } else if bits(*a).disjoint(bits(*b)) {
                assert(bits(both) =~= Set::<usize>::empty());
            }
        }
        n != 0
    }

    /// Takes the members of `b` out of `a`.
    pub fn subtract(a: &mut BitSet, b: &BitSet)
        ensures
            bits(*final(a)) == bits(*old(a)).difference(bits(*b)),
    {
        bitset_difference_with(a, b);
    }
}

/// `PathBuf::from` on a borrowed path: a path of its own with the same parts.
#[verifier::external_body]
fn path_copy(p: &PathBuf) -> (r: PathBuf)
    ensures
        r == *p,
{
    PathBuf::from(p)
}

/// A named, numbered set of characters that the grammar declares.
pub struct CharClass {
    pub n: i32,
    pub name: String,
    pub set: CharSet,
}

/// A stretch of the grammar's source text.
#[derive(Clone, Copy, Debug)]
pub struct Position {
    pub beg: i32,
    pub end: i32,
    pub col: i32,
}

impl Position {
    /// The stretch from `beg` to `end` that starts in column `col`.
    pub fn new(beg: i32, end: i32, col: i32) -> (p: Self)
        ensures
            p.beg == beg,
            p.end == end,
            p.col == col,
    {
        Position { beg, end, col }
    }
}

#[derive(Clone, Copy, Debug, PartialEq, Eq, Structural)]
/// What kind of name a grammar uses a symbol by.
pub enum SymInfoKind {
    Ident,
    String,
}

/// A name that a grammar uses a symbol by.
pub struct SymInfo {
    pub name: String,
    pub kind: SymInfoKind,
}

/// How the scanner recognises a token.
#[derive(Clone, Copy, Debug, PartialEq, Eq, Structural)]
pub enum TokenKind {
    /// e.g. 'a' ('b' | 'c'), a structure and no literal
    Fixed,
    /// e.g. digit {digit}, it may contain a literal
    Class,
    /// e.g. "while"
    Lit,
    /// e.g. letter {letter}, but without literals in it
    ClassLit,
}

/// A terminal, a pragma or a nonterminal of the grammar.
pub struct Symbol {
    /// symbol number
    pub n: i32,
    /// the code of `NodeType::T`, `NodeType::Pr` or `NodeType::Nt`
    pub typ: i32,
    pub name: String,
    /// nt: to the first node of the syntax graph
    pub graph: Node,
    /// t: how the scanner recognises the token
    pub token_kind: TokenKind,
    /// nt: whether the symbol can derive the empty string
    pub deletable: bool,
    /// nt: whether `first` has been computed
    pub first_ready: bool,
    /// nt: the terminals that can start the symbol
    pub first: BitSet,
    /// nt: the terminals that can follow the symbol
    pub follow: BitSet,
    /// nt: the nonterminals whose followers are followers of this symbol too
    pub nts: BitSet,
    /// source text line of the declaration
    pub line: i32,
    /// nt: position of the attributes
    pub attr_pos: Position,
    /// pr: position of the semantic action; nt: of the declarations
    pub sem_pos: Position,
    /// nt: type of the output attribute
    pub ret_type: String,
    /// nt: name of the output attribute
    pub ret_var: String,
}

impl Symbol {
    /// A symbol with nothing known of it yet but its kind, name and line.
    pub fn new(typ: i32, name: String, line: i32) -> (s: Self)
        ensures
            s.n == 0,
            s.typ == typ,
            s.name == name,
            s.graph is None,
            s.token_kind == TokenKind::Fixed,
            !s.deletable,
            !s.first_ready,
            bits(s.first) == Set::<usize>::empty(),
            bits(s.follow) == Set::<usize>::empty(),
            bits(s.nts) == Set::<usize>::empty(),
            s.line == line,
            s.attr_pos == (Position { beg: 0, end: 0, col: 0 }),
            s.sem_pos == (Position { beg: 0, end: 0, col: 0 }),
            s.ret_type@ == Seq::<char>::empty(),
            s.ret_var@ == Seq::<char>::empty(),
    {
        Symbol {
            n: 0,
            typ,
            name,
            graph: None,
            token_kind: TokenKind::Fixed,
            deletable: false,
            first_ready: false,
            first: bitset_new(),
            follow: bitset_new(),
            nts: bitset_new(),
            line,
            attr_pos: Position::new(0, 0, 0),
            sem_pos: Position::new(0, 0, 0),
            ret_type: String::new(),
            ret_var: String::new(),
        }
    }
}

/// A transition of the scanner automaton: on a character from `from` to
/// `to` the automaton goes to the state `target`.
#[derive(Clone, Copy, Debug, PartialEq, Eq, Structural)]
pub struct Transition {
    pub from: i32,
    pub to: i32,
    pub target: usize,
}

/// A state of the scanner automaton.
pub struct State {
    /// the places in the graphs of the tokens that the state stands for
    pub items: BitSet,
    /// where the automaton goes from the state, in ascending order of the
    /// characters
    pub trans: Vec<Transition>,
    /// the token that ends in the state, if one does
    pub accept: Option<usize>,
}

impl State {
    /// A state that stands for no place, leads nowhere and ends no token.
    pub fn new() -> (s: Self)
        ensures
            bits(s.items) == Set::<usize>::empty(),
            s.trans@ == Seq::<Transition>::empty(),
            s.accept is None,
    {
        State { items: bitset_new(), trans: Vec::new(), accept: None }
    }
}

/// What a node of the syntax graph stands for.
#[derive(Clone, Copy, Debug, PartialEq, Eq, Structural)]
pub enum NodeType {
    /// no type yet
    Nil,
    /// terminal symbol
    T,
    /// pragma
    Pr,
    /// nonterminal symbol
    Nt,
    /// character class
    Clas,
    /// character
    Chr,
    /// weak terminal symbol
    Wt,
    /// any symbol but those that the alternatives beside it start with
    Any,
    /// empty
    Eps,
    /// synchronization symbol
    Sync,
    /// semantic action: (. .)
    Sem,
    /// alternative: |
    Alt,
    /// iteration: { }
    Iter,
    /// option: [ ]
    Opt,
    /// resolver expression
    Rslv,
}

impl NodeType {
    /// The number of the node type, as a symbol keeps it.
    pub open spec fn spec_code(self) -> i32 {
        match self {
            NodeType::Nil => 0,
            NodeType::T => 1,
            NodeType::Pr => 2,
            NodeType::Nt => 3,
            NodeType::Clas => 4,
            NodeType::Chr => 5,
            NodeType::Wt => 6,
            NodeType::Any => 7,
            NodeType::Eps => 8,
            NodeType::Sync => 9,
            NodeType::Sem => 10,
            NodeType::Alt => 11,
            NodeType::Iter => 12,
            NodeType::Opt => 13,
            NodeType::Rslv => 14,
        }
    }

    /// The number of the node type.
    #[verifier::when_used_as_spec(spec_code)]
    pub fn code(self) -> (c: i32)
        ensures
            c == self.spec_code(),
    {
        match self {
            NodeType::Nil => 0,
            NodeType::T => 1,
            NodeType::Pr => 2,
            NodeType::Nt => 3,
            NodeType::Clas => 4,
            NodeType::Chr => 5,
            NodeType::Wt => 6,
            NodeType::Any => 7,
            NodeType::Eps => 8,
            NodeType::Sync => 9,
            NodeType::Sem => 10,
            NodeType::Alt => 11,
            NodeType::Iter => 12,
            NodeType::Opt => 13,
            NodeType::Rslv => 14,
        }
    }
}

/// Whether a transition of the scanner automaton starts a token's context.
#[derive(Clone, Copy, Debug, PartialEq, Eq, Structural)]
pub enum TransitionCode {
    Normal,
    Context,
}

/// A reference to a node of the syntax graph: its index in the graph's
/// node list.
#[derive(Clone, Copy, Debug, PartialEq, Eq, Structural)]
pub struct NodeRef {
    pub n: usize,
}

/// A link of the syntax graph: a node, or none.
pub type Node = Option<NodeRef>;

/// A node of the syntax graph.
pub struct NodeObject {
    /// node number
    pub n: i32,
    /// t, nt, wt, chr, clas, any, eps, sem, sync, alt, iter, opt, rslv
    pub typ: NodeType,
    /// to successor node
    pub next: Node,
    /// alt: to next alternative
    pub down: Node,
    /// alt, iter, opt: to first node of substructure
    pub sub: Node,
    /// true: "next" leads to successor in enclosing structure
    pub up: bool,
    /// nt, t, wt: index of the symbol represented by this node
    pub sym: Option<usize>,
    /// chr: ordinal character value
    pub val: i32,
    /// chr, clas: transition code
    pub code: TransitionCode,
    /// any, sync: the set represented by this node
    pub set: BitSet,
    /// nt, t, wt: pos of actual attributes
    pub pos: Position,
    /// source text line number of item in this node
    pub line: i32,
    /// DFA state corresponding to this node
    pub state: State,
    /// nt: name of output attribute
    pub ret_var: String,
}

impl NodeObject {
    /// A node of the given type for the given symbol, not yet linked to any
    /// other node.
    pub fn new(typ: NodeType, sym: Option<usize>, line: i32) -> (node: Self)
        ensures
            node.n == 0,
            node.typ == typ,
            node.next is None,
            node.down is None,
            node.sub is None,
            !node.up,
            node.sym == sym,
            node.val == 0,
            node.code == TransitionCode::Normal,
            bits(node.set) == Set::<usize>::empty(),
            node.pos == (Position { beg: 0, end: 0, col: 0 }),
            node.line == line,
            bits(node.state.items) == Set::<usize>::empty(),
            node.state.trans@ == Seq::<Transition>::empty(),
            node.state.accept is None,
            node.ret_var@ == Seq::<char>::empty(),
    {
        NodeObject {
            n: 0,
            typ,
            next: None,
            down: None,
            sub: None,
            up: false,
            sym,
            val: 0,
            code: TransitionCode::Normal,
            set: bitset_new(),
            pos: Position::new(0, 0, 0),
            line,
            state: State::new(),
            ret_var: String::new(),
        }
    }
}

/// A fragment of the syntax graph under construction.
pub struct Graph {
    /// left end of graph = head
    pub l: Node,
    /// right end of graph = list of nodes to be linked to successor graph
    pub r: Node,
}

impl Graph {
    /// The empty fragment.
    pub fn new() -> (g: Self)
        ensures
            g.l is None,
            g.r is None,
    {
        Graph { l: None, r: None }
    }

    /// The fragment from `left` to `right`.
    pub fn new2(left: Node, right: Node) -> (g: Self)
        ensures
            g.l == left,
            g.r == right,
    {
        Graph { l: left, r: right }
    }

    /// The fragment of the one node `p`.
    pub fn new1(p: Node) -> (g: Self)
        ensures
            g.l == p,
            g.r == p,
    {
        Graph { l: p, r: p }
    }
}

/// The tables of one run: where the grammar is, where the output goes and
/// what to trace.
pub struct Tab {
    src_name: PathBuf,
    src_dir: PathBuf,
    ns_name: Option<String>,
    frame_dir: Option<PathBuf>,
    out_dir: PathBuf,
    ddt_string: Option<String>,
    nodes: Vec<NodeObject>,
    symbols: Vec<Symbol>,
    classes: Vec<CharClass>,
}

/// A state of the tables that no grammar brings about, but that a caller
/// can who links nodes by hand.
#[derive(Clone, Copy, Debug, PartialEq, Eq, Structural)]
pub enum InternalError {
    /// a list of nodes that does not end
    EndlessList,
    /// an analysis that has not settled within its ceiling of passes
    NoFixedPoint,
}

/// Whether a link leads nowhere or to one of `len` nodes.
pub open spec fn link_ok(p: Node, len: nat) -> bool {
    p matches Some(r) ==> r.n < len
}

/// Whether the link `l` leads to the node at `p`.
pub(crate) fn leads_to(l: Node, p: usize) -> (b: bool)
    ensures
        b == (l matches Some(r) && r.n == p),
{
    match l {
        Some(r) => r.n == p,
        None => false,
    }
}

/// What holds of the node at index `i` of a graph with `nodes` nodes over
/// `symbols` symbols: it is numbered by its index, and its links and its
/// symbol exist.
pub open spec fn node_ok(node: NodeObject, i: int, nodes: nat, symbols: nat) -> bool {
    &&& node.n == i
    &&& link_ok(node.next, nodes)
    &&& link_ok(node.down, nodes)
    &&& link_ok(node.sub, nodes)
    &&& node.sym matches Some(s) ==> s < symbols
}

impl Tab {
    /// The nodes of the syntax graph, each at the index that refers to it.
    pub closed spec fn nodes(&self) -> Seq<NodeObject> {
        self.nodes@
    }

    /// The symbols of the grammar, each at the index that is its number.
    pub closed spec fn symbols(&self) -> Seq<Symbol> {
        self.symbols@
    }

    /// The character classes of the grammar, each at the index that is its
    /// number.
    pub closed spec fn classes(&self) -> Seq<CharClass> {
        self.classes@
    }

    /// The invariant of the tables: nodes, symbols and classes are numbered
    /// by their indices, which fit 32 bits, and every link and every
    /// reference to a symbol leads to something that exists.
    pub open spec fn wf(&self) -> bool {
        &&& self.nodes().len() <= i32::MAX
        &&& self.symbols().len() <= i32::MAX
        &&& self.classes().len() <= i32::MAX
        &&& forall|i: int|
            0 <= i < self.nodes().len() ==> node_ok(
                #[trigger] self.nodes()[i],
                i,
                self.nodes().len(),
                self.symbols().len(),
            )
        &&& forall|i: int|
            0 <= i < self.symbols().len() ==> (#[trigger] self.symbols()[i]).n == i && link_ok(
                self.symbols()[i].graph,
                self.nodes().len(),
            )
        &&& forall|i: int| 0 <= i < self.classes().len() ==> (#[trigger] self.classes()[i]).n == i
    }

    /// The path of the grammar file.
    pub closed spec fn spec_src_name(&self) -> PathBuf {
        self.src_name
    }

    /// The directory of the grammar file.
    pub closed spec fn spec_src_dir(&self) -> PathBuf {
        self.src_dir
    }

    /// The module name for the generated parser, if one was given.
    pub closed spec fn spec_ns_name(&self) -> Option<String> {
        self.ns_name
    }

    /// The directory of the frame files, if one was given.
    pub closed spec fn spec_frame_dir(&self) -> Option<PathBuf> {
        self.frame_dir
    }

    /// The directory that the generated files go to.
    pub closed spec fn spec_out_dir(&self) -> PathBuf {
        self.out_dir
    }

    /// The trace switches, if any were given.
    pub closed spec fn spec_ddt_string(&self) -> Option<String> {
        self.ddt_string
    }

    /// The path of the grammar file.
    pub fn src_name(&self) -> (p: &PathBuf)
        ensures
            *p == self.spec_src_name(),
    {
        &self.src_name
    }

    /// The directory of the grammar file.
    pub fn src_dir(&self) -> (p: &PathBuf)
        ensures
            *p == self.spec_src_dir(),
    {
        &self.src_dir
    }

    /// The module name for the generated parser, if one was given.
    pub fn ns_name(&self) -> (s: &Option<String>)
        ensures
            *s == self.spec_ns_name(),
    {
        &self.ns_name
    }

    /// The directory of the frame files, if one was given.
    pub fn frame_dir(&self) -> (p: &Option<PathBuf>)
        ensures
            *p == self.spec_frame_dir(),
    {
        &self.frame_dir
    }

    /// The directory that the generated files go to.
    pub fn out_dir(&self) -> (p: &PathBuf)
        ensures
            *p == self.spec_out_dir(),
    {
        &self.out_dir
    }

    /// The trace switches, if any were given.
    pub fn ddt_string(&self) -> (s: &Option<String>)
        ensures
            *s == self.spec_ddt_string(),
    {
        &self.ddt_string
    }

    /// The tables for the grammar at `src_path`. Without an output
    /// directory the output goes to the path of the grammar itself.
    pub fn new(
        module_name: Option<&str>,
        frame_path: Option<PathBuf>,
        ddt_string: Option<&str>,
        out_path: Option<PathBuf>,
        src_path: &PathBuf,
        src_dir: PathBuf,
    ) -> (tab: Tab)
        ensures
            tab.spec_src_name() == *src_path,
            tab.spec_src_dir() == src_dir,
            match module_name {
                Some(s) => tab.spec_ns_name() matches Some(t) && t@ == s@,
                None => tab.spec_ns_name() is None,
            },
            tab.spec_frame_dir() == frame_path,
            tab.spec_out_dir() == match out_path {
                Some(p) => p,
                None => *src_path,
            },
            match ddt_string {
                Some(s) => tab.spec_ddt_string() matches Some(t) && t@ == s@,
                None => tab.spec_ddt_string() is None,
            },
            tab.wf(),
            tab.nodes().len() == 0,
            tab.symbols().len() == 0,
            tab.classes().len() == 0,
    {
        let ns_name = match module_name {
            Some(s) => Some(s.to_owned()),
            None => None,
        };
        let ddt = match ddt_string {
            Some(s) => Some(s.to_owned()),
            None => None,
        };
        let out_dir = match out_path {
            Some(p) => p,
            None => path_copy(src_path),
        };
        Tab {
            src_name: path_copy(src_path),
            src_dir,
            ns_name,
            frame_dir: frame_path,
            out_dir,
            ddt_string: ddt,
            nodes: Vec::new(),
            symbols: Vec::new(),
            classes: Vec::new(),
        }
    }

    /// The number of nodes in the syntax graph.
    pub fn node_count(&self) -> (n: usize)
        ensures
            n == self.nodes().len(),
    {
        self.nodes.len()
    }

    /// The node that `p` refers to.
    pub fn node(&self, p: NodeRef) -> (node: &NodeObject)
        requires
            p.n < self.nodes().len(),
        ensures
            *node == self.nodes()[p.n as int],
    {
        &self.nodes[p.n]
    }

    /// Adds a node of type `typ` for the symbol `sym` to the graph, linked
    /// to no other node, and returns the reference to it.
    pub fn new_node(&mut self, typ: NodeType, sym: Option<usize>, line: i32) -> (p: NodeRef)
        requires
            old(self).wf(),
            old(self).nodes().len() < i32::MAX,
            sym matches Some(s) ==> s < old(self).symbols().len(),
        ensures
            final(self).wf(),
            p.n == old(self).nodes().len(),
            final(self).nodes().len() == old(self).nodes().len() + 1,
            forall|i: int|
                0 <= i < old(self).nodes().len() ==> final(self).nodes()[i] == old(self).nodes()[i],
            fresh_node(final(self).nodes()[p.n as int], p.n as int, typ, sym, line),
            final(self).symbols() == old(self).symbols(),
            final(self).classes() == old(self).classes(),
    {
        let n = self.nodes.len();
        let mut node = NodeObject::new(typ, sym, line);
        node.n = n as i32;
        self.nodes.push(node);
        NodeRef { n }
    }

    /// Leads the `next` link of the node `p` to `target`.
    pub fn set_next(&mut self, p: NodeRef, target: Node)
        requires
            old(self).wf(),
            p.n < old(self).nodes().len(),
            link_ok(target, old(self).nodes().len()),
        ensures
            final(self).wf(),
            final(self).nodes() == old(self).nodes().update(
                p.n as int,
                NodeObject { next: target, ..old(self).nodes()[p.n as int] },
            ),
            final(self).symbols() == old(self).symbols(),
            final(self).classes() == old(self).classes(),
    {
        self.nodes[p.n].next = target;
        assert(self.nodes@ =~= old(self).nodes@.update(
            p.n as int,
            NodeObject { next: target, ..old(self).nodes@[p.n as int] },
        ));
    }

    /// Leads the `down` link of the node `p` to `target`.
    pub fn set_down(&mut self, p: NodeRef, target: Node)
        requires
            old(self).wf(),
            p.n < old(self).nodes().len(),
            link_ok(target, old(self).nodes().len()),
        ensures
            final(self).wf(),
            final(self).nodes() == old(self).nodes().update(
                p.n as int,
                NodeObject { down: target, ..old(self).nodes()[p.n as int] },
            ),
            final(self).symbols() == old(self).symbols(),
            final(self).classes() == old(self).classes(),
    {
        self.nodes[p.n].down = target;
        assert(self.nodes@ =~= old(self).nodes@.update(
            p.n as int,
            NodeObject { down: target, ..old(self).nodes@[p.n as int] },
        ));
    }

    /// Leads the `sub` link of the node `p` to `target`.
    pub fn set_sub(&mut self, p: NodeRef, target: Node)
        requires
            old(self).wf(),
            p.n < old(self).nodes().len(),
            link_ok(target, old(self).nodes().len()),
        ensures
            final(self).wf(),
            final(self).nodes() == old(self).nodes().update(
                p.n as int,
                NodeObject { sub: target, ..old(self).nodes()[p.n as int] },
            ),
            final(self).symbols() == old(self).symbols(),
            final(self).classes() == old(self).classes(),
    {
        self.nodes[p.n].sub = target;
        assert(self.nodes@ =~= old(self).nodes@.update(
            p.n as int,
            NodeObject { sub: target, ..old(self).nodes@[p.n as int] },
        ));
    }

    /// Says of the node `p` whether its `next` link leaves the structure
    /// that the node is in.
    pub fn set_up(&mut self, p: NodeRef, up: bool)
        requires
            old(self).wf(),
            p.n < old(self).nodes().len(),
        ensures
            final(self).wf(),
            final(self).nodes() == old(self).nodes().update(
                p.n as int,
                NodeObject { up, ..old(self).nodes()[p.n as int] },
            ),
            final(self).symbols() == old(self).symbols(),
            final(self).classes() == old(self).classes(),
    {
        self.nodes[p.n].up = up;
        assert(self.nodes@ =~= old(self).nodes@.update(
            p.n as int,
            NodeObject { up, ..old(self).nodes@[p.n as int] },
        ));
    }

    /// Gives the node `p` the source line `line`.
    pub fn set_line(&mut self, p: NodeRef, line: i32)
        requires
            old(self).wf(),
            p.n < old(self).nodes().len(),
        ensures
            final(self).wf(),
            final(self).nodes() == old(self).nodes().update(
                p.n as int,
                NodeObject { line, ..old(self).nodes()[p.n as int] },
            ),
            final(self).symbols() == old(self).symbols(),
            final(self).classes() == old(self).classes(),
    {
        self.nodes[p.n].line = line;
        assert(self.nodes@ =~= old(self).nodes@.update(
            p.n as int,
            NodeObject { line, ..old(self).nodes@[p.n as int] },
        ));
    }

    /// Gives the node `p` the value `val`: the character of a character
    /// node, the number of the class of a class node.
    pub fn set_val(&mut self, p: NodeRef, val: i32)
        requires
            old(self).wf(),
            p.n < old(self).nodes().len(),
        ensures
            final(self).wf(),
            final(self).nodes() == old(self).nodes().update(
                p.n as int,
                NodeObject { val, ..old(self).nodes()[p.n as int] },
            ),
            final(self).symbols() == old(self).symbols(),
            final(self).classes() == old(self).classes(),
    {
        self.nodes[p.n].val = val;
        assert(self.nodes@ =~= old(self).nodes@.update(
            p.n as int,
            NodeObject { val, ..old(self).nodes@[p.n as int] },
        ));
    }

    /// The number of symbols in the grammar.
    pub fn sym_count(&self) -> (n: usize)
        ensures
            n == self.symbols().len(),
    {
        self.symbols.len()
    }

    /// The symbol with the number `s`.
    pub fn sym(&self, s: usize) -> (sym: &Symbol)
        requires
            s < self.symbols().len(),
        ensures
            *sym == self.symbols()[s as int],
    {
        &self.symbols[s]
    }

    /// Enters a symbol of the kind `typ` under `name` and returns its
    /// number, the next free one. Nothing else is known of the symbol yet.
    pub fn new_sym(&mut self, typ: i32, name: String, line: i32) -> (s: usize)
        requires
            old(self).wf(),
            old(self).symbols().len() < i32::MAX,
        ensures
            final(self).wf(),
            s == old(self).symbols().len(),
            final(self).symbols().len() == old(self).symbols().len() + 1,
            forall|i: int|
                0 <= i < old(self).symbols().len() ==> final(self).symbols()[i] == old(
                    self,
                ).symbols()[i],
            fresh_symbol(final(self).symbols()[s as int], s as int, typ, name, line),
            final(self).nodes() == old(self).nodes(),
            final(self).classes() == old(self).classes(),
    {
        let n = self.symbols.len();
        let mut sym = Symbol::new(typ, name, line);
        sym.n = n as i32;
        self.symbols.push(sym);
        n
    }

    /// The number of the first symbol entered under `name`, if there is one.
    pub fn find_sym(&self, name: &str) -> (found: Option<usize>)
        ensures
            match found {
                Some(s) => s < self.symbols().len() && self.symbols()[s as int].name@ == name@
                    && forall|i: int| 0 <= i < s ==> self.symbols()[i].name@ != name@,
                None => forall|i: int|
                    0 <= i < self.symbols().len() ==> self.symbols()[i].name@ != name@,
            },
    {
        let wanted = name.to_owned();
        let mut k: usize = 0;
        while k < self.symbols.len()
            invariant
                0 <= k <= self.symbols@.len(),
                wanted@ == name@,
                forall|i: int| 0 <= i < k ==> self.symbols@[i].name@ != name@,
            decreases self.symbols@.len() - k,
        {
            if self.symbols[k].name == wanted {
                return Some(k);
            }
            k += 1;
        }
        None
    }

    /// Makes `p` the start of the syntax graph of the symbol `s`.
    pub fn set_sym_graph(&mut self, s: usize, p: Node)
        requires
            old(self).wf(),
            s < old(self).symbols().len(),
            link_ok(p, old(self).nodes().len()),
        ensures
            final(self).wf(),
            final(self).symbols().len() == old(self).symbols().len(),
            forall|i: int|
                0 <= i < old(self).symbols().len() && i != s ==> final(self).symbols()[i] == old(
                    self,
                ).symbols()[i],
            final(self).symbols()[s as int] == (Symbol { graph: p, ..old(self).symbols()[s as int] }),
            final(self).nodes() == old(self).nodes(),
            final(self).classes() == old(self).classes(),
    {
        self.symbols[s].graph = p;
    }

    /// Says of the symbol `s` whether it can derive the empty string.
    pub fn set_deletable(&mut self, s: usize, deletable: bool)
        requires
            old(self).wf(),
            s < old(self).symbols().len(),
        ensures
            final(self).wf(),
            final(self).symbols() == old(self).symbols().update(
                s as int,
                Symbol { deletable, ..old(self).symbols()[s as int] },
            ),
            final(self).nodes() == old(self).nodes(),
            final(self).classes() == old(self).classes(),
    {
        self.symbols[s].deletable = deletable;
        assert(self.symbols@ =~= old(self).symbols@.update(
            s as int,
            Symbol { deletable, ..old(self).symbols@[s as int] },
        ));
    }

    /// Gives the symbol `s` the set `first` of the terminals that can start
    /// it, and says that this set is ready.
    pub fn set_first(&mut self, s: usize, first: BitSet)
        requires
            old(self).wf(),
            s < old(self).symbols().len(),
        ensures
            final(self).wf(),
            final(self).symbols() == old(self).symbols().update(
                s as int,
                Symbol { first, first_ready: true, ..old(self).symbols()[s as int] },
            ),
            final(self).nodes() == old(self).nodes(),
            final(self).classes() == old(self).classes(),
    {
        self.symbols[s].first = first;
        self.symbols[s].first_ready = true;
        assert(self.symbols@ =~= old(self).symbols@.update(
            s as int,
            Symbol { first, first_ready: true, ..old(self).symbols@[s as int] },
        ));
    }

    /// Gives the symbol `s` the set `follow` of the terminals that can
    /// follow it.
    pub fn set_follow(&mut self, s: usize, follow: BitSet)
        requires
            old(self).wf(),
            s < old(self).symbols().len(),
        ensures
            final(self).wf(),
            final(self).symbols() == old(self).symbols().update(
                s as int,
                Symbol { follow, ..old(self).symbols()[s as int] },
            ),
            final(self).nodes() == old(self).nodes(),
            final(self).classes() == old(self).classes(),
    {
        self.symbols[s].follow = follow;
        assert(self.symbols@ =~= old(self).symbols@.update(
            s as int,
            Symbol { follow, ..old(self).symbols@[s as int] },
        ));
    }

    /// Gives the node `p` the set of terminals that it stands for, as a
    /// node for any symbol or for a synchronization point does.
    pub fn set_node_set(&mut self, p: NodeRef, set: BitSet)
        requires
            old(self).wf(),
            p.n < old(self).nodes().len(),
        ensures
            final(self).wf(),
            final(self).nodes() == old(self).nodes().update(
                p.n as int,
                NodeObject { set, ..old(self).nodes()[p.n as int] },
            ),
            final(self).symbols() == old(self).symbols(),
            final(self).classes() == old(self).classes(),
    {
        self.nodes[p.n].set = set;
        assert(self.nodes@ =~= old(self).nodes@.update(
            p.n as int,
            NodeObject { set, ..old(self).nodes@[p.n as int] },
        ));
    }

    /// The number of character classes.
    pub fn class_count(&self) -> (n: usize)
        ensures
            n == self.classes().len(),
    {
        self.classes.len()
    }

    /// Registers the set `set` as a character class under `name` and
    /// returns its number, the next free one.
    pub fn new_char_class(&mut self, name: String, set: CharSet) -> (c: usize)
        requires
            old(self).wf(),
            old(self).classes().len() < i32::MAX,
        ensures
            final(self).wf(),
            c == old(self).classes().len(),
            final(self).classes() == old(self).classes().push(
                CharClass { n: c as i32, name, set },
            ),
            final(self).nodes() == old(self).nodes(),
            final(self).symbols() == old(self).symbols(),
    {
        let n = self.classes.len();
        self.classes.push(CharClass { n: n as i32, name, set });
        n
    }

    /// The number of the first class registered under `name`, if there is
    /// one.
    pub fn find_char_class(&self, name: &str) -> (found: Option<usize>)
        ensures
            match found {
                Some(c) => c < self.classes().len() && self.classes()[c as int].name@ == name@
                    && forall|i: int| 0 <= i < c ==> self.classes()[i].name@ != name@,
                None => forall|i: int|
                    0 <= i < self.classes().len() ==> self.classes()[i].name@ != name@,
            },
    {
        let wanted = name.to_owned();
        let mut k: usize = 0;
        while k < self.classes.len()
            invariant
                0 <= k <= self.classes@.len(),
                wanted@ == name@,
                forall|i: int| 0 <= i < k ==> self.classes@[i].name@ != name@,
            decreases self.classes@.len() - k,
        {
            if self.classes[k].name == wanted {
                return Some(k);
            }
            k += 1;
        }
        None
    }

    /// The number of the first class that holds exactly the points of
    /// `set`, if there is one.
    pub fn find_char_class_by_set(&self, set: &CharSet) -> (found: Option<usize>)
        ensures
            match found {
                Some(c) => c < self.classes().len() && self.classes()[c as int].set@ == set@
                    && forall|i: int| 0 <= i < c ==> self.classes()[i].set@ != set@,
                None => forall|i: int|
                    0 <= i < self.classes().len() ==> self.classes()[i].set@ != set@,
            },
    {
        let mut k: usize = 0;
        while k < self.classes.len()
            invariant
                0 <= k <= self.classes@.len(),
                forall|i: int| 0 <= i < k ==> self.classes@[i].set@ != set@,
            decreases self.classes@.len() - k,
        {
            if self.classes[k].set.equals(set) {
                return Some(k);
            }
            k += 1;
        }
        None
    }

    /// The set of the class with the number `c`.
    pub fn char_class_set(&self, c: usize) -> (set: &CharSet)
        requires
            c < self.classes().len(),
        ensures
            *set == self.classes()[c as int].set,
    {
        &self.classes[c].set
    }
}

/// What holds of a node that has just entered the graph at index `i`.
pub open spec fn fresh_node(
    node: NodeObject,
    i: int,
    typ: NodeType,
    sym: Option<usize>,
    line: i32,
) -> bool {
    &&& node.n == i
    &&& node.typ == typ
    &&& node.next is None
    &&& node.down is None
    &&& node.sub is None
    &&& !node.up
    &&& node.sym == sym
    &&& node.val == 0
    &&& node.code == TransitionCode::Normal
    &&& bits(node.set) == Set::<usize>::empty()
    &&& node.pos == (Position { beg: 0, end: 0, col: 0 })
    &&& node.line == line
    &&& bits(node.state.items) == Set::<usize>::empty()
    &&& node.state.trans@ == Seq::<Transition>::empty()
    &&& node.state.accept is None
    &&& node.ret_var@ == Seq::<char>::empty()
}

/// What holds of a symbol that has just entered the table under number `i`.
pub open spec fn fresh_symbol(sym: Symbol, i: int, typ: i32, name: String, line: i32) -> bool {
    &&& sym.n == i
    &&& sym.typ == typ
    &&& sym.name == name
    &&& sym.graph is None
    &&& sym.token_kind == TokenKind::Fixed
    &&& !sym.deletable
    &&& !sym.first_ready
    &&& bits(sym.first) == Set::<usize>::empty()
    &&& bits(sym.follow) == Set::<usize>::empty()
    &&& bits(sym.nts) == Set::<usize>::empty()
    &&& sym.line == line
    &&& sym.attr_pos == (Position { beg: 0, end: 0, col: 0 })
    &&& sym.sem_pos == (Position { beg: 0, end: 0, col: 0 })
    &&& sym.ret_type@ == Seq::<char>::empty()
    &&& sym.ret_var@ == Seq::<char>::empty()
}

} // verus!
