//! Building the syntax graph of a production from fragments.
//!
//! A fragment has a left end, where it is entered, and a right end. From the
//! right end the `next` links lead through the open ends of the fragment:
//! the nodes whose successor is not known yet. Putting a fragment in front
//! of another, or closing it, gives all of them their successor.

use crate::tab::{link_ok, Graph, InternalError, Node, NodeObject, NodeRef, NodeType, Tab};
use crate::tab::fresh_node;
use vstd::prelude::*;

verus! {

/// The nodes on the way from `p` along the `next` links, as far as it goes
/// and for `limit` nodes at most.
pub open spec fn next_path(nodes: Seq<NodeObject>, p: Node, limit: nat) -> Seq<usize>
    decreases limit,
{
    match p {
        Some(r) if limit > 0 && r.n < nodes.len() => seq![r.n] + next_path(
            nodes,
            nodes[r.n as int].next,
            (limit - 1) as nat,
        ),
        _ => Seq::empty(),
    }
}

/// Whether the way from `p` along the `next` links comes to its end within
/// `limit` nodes.
pub open spec fn next_path_ends(nodes: Seq<NodeObject>, p: Node, limit: nat) -> bool
    decreases limit,
{
    match p {
        Some(r) => limit > 0 && r.n < nodes.len() && next_path_ends(
            nodes,
            nodes[r.n as int].next,
            (limit - 1) as nat,
        ),
        None => true,
    }
}

/// The last node on the way from the node `p` along the `down` links, if
/// the way comes to its end within `limit` nodes.
pub open spec fn last_down(nodes: Seq<NodeObject>, p: usize, limit: nat) -> Option<usize>
    decreases limit,
{
    if limit == 0 || p >= nodes.len() {
        None
    } else {
        match nodes[p as int].down {
            Some(r) => last_down(nodes, r.n, (limit - 1) as nat),
            None => Some(p),
        }
    }
}

/// `nodes` with the `next` link of every node of `path` led to `target`.
pub open spec fn relink(nodes: Seq<NodeObject>, path: Seq<usize>, target: Node) -> Seq<
    NodeObject,
> {
    Seq::new(
        nodes.len(),
        |i: int|
            if path.contains(i as usize) {
                NodeObject { next: target, ..nodes[i] }
            } else {
                nodes[i]
            },
    )
}

/// `nodes` with the node at `i` marked as the last of its structure.
pub open spec fn mark_up(nodes: Seq<NodeObject>, i: usize) -> Seq<NodeObject> {
    nodes.update(i as int, NodeObject { up: true, ..nodes[i as int] })
}

/// `nodes` with the `next` link of the node at `i` led to `target`.
pub open spec fn link_next(nodes: Seq<NodeObject>, i: usize, target: Node) -> Seq<NodeObject> {
    nodes.update(i as int, NodeObject { next: target, ..nodes[i as int] })
}

/// `nodes` with the `down` link of the node at `i` led to `target`.
pub open spec fn link_down(nodes: Seq<NodeObject>, i: usize, target: Node) -> Seq<NodeObject> {
    nodes.update(i as int, NodeObject { down: target, ..nodes[i as int] })
}

/// What holds of a node that has just entered the graph at index `i` as
/// the head of a structure: its type, its links and its line are as given
/// and nothing else is known of it.
pub open spec fn structure_node(
    node: NodeObject,
    i: int,
    typ: NodeType,
    sub: Node,
    next: Node,
    up: bool,
    line: i32,
) -> bool {
    fresh_node(NodeObject { sub: None, next: None, up: false, ..node }, i, typ, None, line)
        && node.sub == sub && node.next == next && node.up == up
}

impl Tab {
    /// The nodes on the way from `p` along the `next` links, or nothing if
    /// the way has not come to its end after as many nodes as the graph has.
    fn collect_next_path(&self, p: Node) -> (path: Option<Vec<usize>>)
        requires
            self.wf(),
            link_ok(p, self.nodes().len()),
        ensures
            path is Some <==> next_path_ends(self.nodes(), p, self.nodes().len()),
            path matches Some(v) ==> v@ == next_path(self.nodes(), p, self.nodes().len())
                && forall|i: int| 0 <= i < v@.len() ==> v@[i] < self.nodes().len(),
    {
        let len = self.node_count();
        let mut v: Vec<usize> = Vec::new();
        let mut cur = p;
        let mut steps: usize = 0;
        while steps < len
            invariant
                self.wf(),
                len == self.nodes().len(),
                0 <= steps <= len,
                link_ok(cur, len as nat),
                next_path(self.nodes(), p, len as nat) == v@ + next_path(
                    self.nodes(),
                    cur,
                    (len - steps) as nat,
                ),
                next_path_ends(self.nodes(), p, len as nat) == next_path_ends(
                    self.nodes(),
                    cur,
                    (len - steps) as nat,
                ),
                forall|i: int| 0 <= i < v@.len() ==> v@[i] < len,
            decreases len - steps,
        {
            match cur {
                None => {
                    assert(v@ + Seq::<usize>::empty() =~= v@);
                    return Some(v);
                },
                Some(r) => {
                    let ghost before = v@;
                    v.push(r.n);
                    cur = self.node(r).next;
                    steps += 1;
                    assert(before + (seq![r.n] + next_path(
                        self.nodes(),
                        cur,
                        (len - steps) as nat,
                    )) =~= v@ + next_path(self.nodes(), cur, (len - steps) as nat));
                },
            }
        }
        assert(v@ + Seq::<usize>::empty() =~= v@);
        match cur {
            None => Some(v),
            Some(_) => None,
        }
    }

    /// Leads the `next` link of every node of `path` to `target`.
    fn relink_all(&mut self, path: &Vec<usize>, target: Node)
        requires
            old(self).wf(),
            link_ok(target, old(self).nodes().len()),
            forall|i: int| 0 <= i < path@.len() ==> path@[i] < old(self).nodes().len(),
        ensures
            final(self).wf(),
            final(self).nodes() == relink(old(self).nodes(), path@, target),
            final(self).symbols() == old(self).symbols(),
            final(self).classes() == old(self).classes(),
    {
        let mut k: usize = 0;
        while k < path.len()
            invariant
                0 <= k <= path@.len(),
                self.wf(),
                link_ok(target, old(self).nodes().len()),
                forall|i: int| 0 <= i < path@.len() ==> path@[i] < old(self).nodes().len(),
                self.nodes() == relink(old(self).nodes(), path@.take(k as int), target),
                self.symbols() == old(self).symbols(),
                self.classes() == old(self).classes(),
            decreases path@.len() - k,
        {
            let i = path[k];
            let ghost before = self.nodes();
            self.set_next(NodeRef { n: i }, target);
            proof {
                let done = path@.take(k as int);
                let more = path@.take(k + 1);
                assert(more =~= done.push(i));
                assert forall|j: int| 0 <= j < before.len() implies #[trigger] self.nodes()[j]
                    == relink(old(self).nodes(), more, target)[j] by {
                    if j == i {
                        assert(more[k as int] == i);
                    } else if done.contains(j as usize) {
                        let w = choose|w: int| 0 <= w < done.len() && done[w] == j as usize;
                        assert(more[w] == j as usize);
                    } else if more.contains(j as usize) {
                        let w = choose|w: int| 0 <= w < more.len() && more[w] == j as usize;
                        assert(done[w] == j as usize);
                    }
                }
                assert(self.nodes() =~= relink(old(self).nodes(), more, target));
            }
            k += 1;
        }
        assert(path@.take(k as int) =~= path@);
        proof {
            assert(relink(old(self).nodes(), Seq::<usize>::empty(), target) =~= old(self).nodes());
        }
    }

    /// The last node on the way from `p` along the `down` links, or nothing
    /// if the way has not come to its end after as many nodes as the graph
    /// has.
    fn find_last_down(&self, p: NodeRef) -> (last: Option<usize>)
        requires
            self.wf(),
            p.n < self.nodes().len(),
        ensures
            last == last_down(self.nodes(), p.n, self.nodes().len()),
            last matches Some(d) ==> d < self.nodes().len(),
    {
        let len = self.node_count();
        let mut cur = p;
        let mut steps: usize = 0;
        while steps < len
            invariant
                self.wf(),
                len == self.nodes().len(),
                0 <= steps <= len,
                cur.n < len,
                last_down(self.nodes(), p.n, len as nat) == last_down(
                    self.nodes(),
                    cur.n,
                    (len - steps) as nat,
                ),
            decreases len - steps,
        {
            match self.node(cur).down {
                None => {
                    return Some(cur.n);
                },
                Some(r) => {
                    cur = r;
                    steps += 1;
                },
            }
        }
        None
    }

    /// Adds the head of a structure to the graph.
    fn new_structure(&mut self, typ: NodeType, sub: Node, next: Node, up: bool, line: i32) -> (p:
        NodeRef)
        requires
            old(self).wf(),
            old(self).nodes().len() < i32::MAX,
            link_ok(sub, old(self).nodes().len()),
            link_ok(next, old(self).nodes().len()),
        ensures
            final(self).wf(),
            p.n == old(self).nodes().len(),
            final(self).nodes().len() == old(self).nodes().len() + 1,
            final(self).nodes().take(p.n as int) == old(self).nodes(),
            structure_node(final(self).nodes()[p.n as int], p.n as int, typ, sub, next, up, line),
            final(self).symbols() == old(self).symbols(),
            final(self).classes() == old(self).classes(),
    {
        let p = self.new_node(typ, None, line);
        self.set_sub(p, sub);
        self.set_next(p, next);
        self.set_up(p, up);
        assert(self.nodes().take(p.n as int) =~= old(self).nodes());
        p
    }

    /// Makes the fragment `g` the first alternative of a choice: a new
    /// alternative node, which takes the line of the fragment's first node,
    /// leads down into the fragment and becomes both ends of it. The old
    /// right end is now the last node of the alternative, and the open ends
    /// of the fragment follow the new node.
    pub fn make_first_alt(&mut self, g: &mut Graph)
        requires
            old(self).wf(),
            old(self).nodes().len() < i32::MAX,
            old(g).l matches Some(l) && l.n < old(self).nodes().len(),
            old(g).r matches Some(r) && r.n < old(self).nodes().len(),
        ensures
            final(self).wf(),
            final(self).nodes().len() == old(self).nodes().len() + 1,
            final(self).nodes().take(old(self).nodes().len() as int) == mark_up(
                old(self).nodes(),
                old(g).r->0.n,
            ),
            structure_node(
                final(self).nodes()[old(self).nodes().len() as int],
                old(self).nodes().len() as int,
                NodeType::Alt,
                old(g).l,
                old(g).r,
                false,
                old(self).nodes()[old(g).l->0.n as int].line,
            ),
            final(g).l == Some(NodeRef { n: old(self).nodes().len() as usize }),
            final(g).r == final(g).l,
            final(self).symbols() == old(self).symbols(),
            final(self).classes() == old(self).classes(),
    {
        let l = g.l.unwrap();
        let r = g.r.unwrap();
        let line = self.node(l).line;
        self.set_up(r, true);
        let a = self.new_structure(NodeType::Alt, g.l, g.r, false, line);
        g.l = Some(a);
        g.r = Some(a);
    }

    /// Adds the fragment `g2` to the choice `g1` as one more alternative.
    /// A new alternative node, which takes the line of the first node of
    /// `g2`, leads down into `g2`; the last alternative node of `g1` leads
    /// down to it, and it joins the open ends of `g1`, followed by those of
    /// `g2`. The ends of `g1` stay.
    ///
    /// Fails, and changes nothing, if the alternatives of `g1` or its open
    /// ends have no end.
    pub fn make_alternative(&mut self, g1: &Graph, g2: &Graph) -> (done: Result<
        (),
        InternalError,
    >)
        requires
            old(self).wf(),
            old(self).nodes().len() < i32::MAX,
            g1.l matches Some(l) && l.n < old(self).nodes().len(),
            g1.r matches Some(r) && r.n < old(self).nodes().len(),
            g2.l matches Some(l) && l.n < old(self).nodes().len(),
            g2.r matches Some(r) && r.n < old(self).nodes().len(),
        ensures
            final(self).wf(),
            final(self).symbols() == old(self).symbols(),
            final(self).classes() == old(self).classes(),
            done is Ok <==> last_down(old(self).nodes(), g1.l->0.n, old(self).nodes().len())
                is Some && next_path_ends(old(self).nodes(), g1.r, old(self).nodes().len()),
            done matches Err(e) ==> e == InternalError::EndlessList && final(self).nodes() == old(
                self,
            ).nodes(),
            done is Ok ==> {
                let len = old(self).nodes().len();
                let d = last_down(old(self).nodes(), g1.l->0.n, len)->0;
                let e = next_path(old(self).nodes(), g1.r, len).last();
                let a = Some(NodeRef { n: len as usize });
                &&& final(self).nodes().len() == len + 1
                &&& final(self).nodes().take(len as int) == link_next(
                    link_down(mark_up(old(self).nodes(), g2.r->0.n), d, a),
                    e,
                    a,
                )
                &&& structure_node(
                    final(self).nodes()[len as int],
                    len as int,
                    NodeType::Alt,
                    g2.l,
                    g2.r,
                    true,
                    old(self).nodes()[g2.l->0.n as int].line,
                )
            },
    {
        let last_alt = self.find_last_down(g1.l.unwrap());
        let open = self.collect_next_path(g1.r);
        match (last_alt, open) {
            (Some(d), Some(path)) => {
                assert(path@.len() > 0);
                let e = path[path.len() - 1];
                let line = self.node(g2.l.unwrap()).line;
                self.set_up(g2.r.unwrap(), true);
                let a = self.new_structure(NodeType::Alt, g2.l, g2.r, true, line);
                self.set_down(NodeRef { n: d }, Some(a));
                self.set_next(NodeRef { n: e }, Some(a));
                proof {
                    let len = old(self).nodes().len();
                    assert(self.nodes().take(len as int) =~= link_next(
                        link_down(mark_up(old(self).nodes(), g2.r->0.n), d, Some(a)),
                        e,
                        Some(a),
                    ));
                }
                Ok(())
            },
            _ => Err(InternalError::EndlessList),
        }
    }

    /// Puts the fragment `g2` behind the fragment `g1`: every open end of
    /// `g1` gets the left end of `g2` as its successor, and the right end of
    /// `g2` becomes that of `g1`.
    ///
    /// Fails, and changes nothing, if the open ends of `g1` have no end.
    pub fn make_sequence(&mut self, g1: &mut Graph, g2: &Graph) -> (done: Result<
        (),
        InternalError,
    >)
        requires
            old(self).wf(),
            link_ok(old(g1).r, old(self).nodes().len()),
            link_ok(g2.l, old(self).nodes().len()),
        ensures
            final(self).wf(),
            final(self).symbols() == old(self).symbols(),
            final(self).classes() == old(self).classes(),
            done is Ok <==> next_path_ends(old(self).nodes(), old(g1).r, old(self).nodes().len()),
            done matches Err(e) ==> e == InternalError::EndlessList && final(self).nodes() == old(
                self,
            ).nodes() && *final(g1) == *old(g1),
            done is Ok ==> final(self).nodes() == relink(
                old(self).nodes(),
                next_path(old(self).nodes(), old(g1).r, old(self).nodes().len()),
                g2.l,
            ) && final(g1).l == old(g1).l && final(g1).r == g2.r,
    {
        match self.collect_next_path(g1.r) {
            Some(path) => {
                self.relink_all(&path, g2.l);
                g1.r = g2.r;
                Ok(())
            },
            None => Err(InternalError::EndlessList),
        }
    }

    /// Makes the fragment `g` the body of an iteration: a new iteration
    /// node leads down into the fragment and becomes both ends of it. The
    /// old right end is now the last node of the body, and every open end of
    /// the fragment gets the new node as its successor.
    ///
    /// Fails, and changes nothing, if the open ends of `g` have no end.
    pub fn make_iteration(&mut self, g: &mut Graph) -> (done: Result<(), InternalError>)
        requires
            old(self).wf(),
            old(self).nodes().len() < i32::MAX,
            link_ok(old(g).l, old(self).nodes().len()),
            old(g).r matches Some(r) && r.n < old(self).nodes().len(),
        ensures
            final(self).wf(),
            final(self).symbols() == old(self).symbols(),
            final(self).classes() == old(self).classes(),
            done is Ok <==> next_path_ends(old(self).nodes(), old(g).r, old(self).nodes().len()),
            done matches Err(e) ==> e == InternalError::EndlessList && final(self).nodes() == old(
                self,
            ).nodes() && *final(g) == *old(g),
            done is Ok ==> {
                let len = old(self).nodes().len();
                let a = Some(NodeRef { n: len as usize });
                &&& final(self).nodes().len() == len + 1
                &&& final(self).nodes().take(len as int) == relink(
                    mark_up(old(self).nodes(), old(g).r->0.n),
                    next_path(old(self).nodes(), old(g).r, len),
                    a,
                )
                &&& structure_node(
                    final(self).nodes()[len as int],
                    len as int,
                    NodeType::Iter,
                    old(g).l,
                    None,
                    false,
                    0,
                )
                &&& final(g).l == a
                &&& final(g).r == a
            },
    {
        match self.collect_next_path(g.r) {
            Some(path) => {
                self.set_up(g.r.unwrap(), true);
                let ghost marked = self.nodes();
                let a = self.new_structure(NodeType::Iter, g.l, None, false, 0);
                let ghost grown = self.nodes();
                self.relink_all(&path, Some(a));
                proof {
                    let len = old(self).nodes().len();
                    assert(grown.take(len as int) == marked);
                    assert forall|i: int| 0 <= i < path@.len() implies path@[i] != len by {}
                    assert(!path@.contains(len as usize));
                    assert(self.nodes().take(len as int) =~= relink(marked, path@, Some(a)));
                    assert(self.nodes()[len as int] == grown[len as int]);
                }
                g.l = Some(a);
                g.r = Some(a);
                Ok(())
            },
            None => Err(InternalError::EndlessList),
        }
    }

    /// Makes the fragment `g` the body of an option: a new option node
    /// leads down into the fragment and becomes both ends of it. The old
    /// right end is now the last node of the body, and the open ends of the
    /// fragment follow the new node.
    pub fn make_option(&mut self, g: &mut Graph)
        requires
            old(self).wf(),
            old(self).nodes().len() < i32::MAX,
            link_ok(old(g).l, old(self).nodes().len()),
            old(g).r matches Some(r) && r.n < old(self).nodes().len(),
        ensures
            final(self).wf(),
            final(self).nodes().len() == old(self).nodes().len() + 1,
            final(self).nodes().take(old(self).nodes().len() as int) == mark_up(
                old(self).nodes(),
                old(g).r->0.n,
            ),
            structure_node(
                final(self).nodes()[old(self).nodes().len() as int],
                old(self).nodes().len() as int,
                NodeType::Opt,
                old(g).l,
                old(g).r,
                false,
                0,
            ),
            final(g).l == Some(NodeRef { n: old(self).nodes().len() as usize }),
            final(g).r == final(g).l,
            final(self).symbols() == old(self).symbols(),
            final(self).classes() == old(self).classes(),
    {
        self.set_up(g.r.unwrap(), true);
        let a = self.new_structure(NodeType::Opt, g.l, g.r, false, 0);
        g.l = Some(a);
        g.r = Some(a);
    }

    /// Closes the fragment `g`, which is a whole production now: its open
    /// ends get no successor.
    ///
    /// Fails, and changes nothing, if the open ends of `g` have no end.
    pub fn finish(&mut self, g: &Graph) -> (done: Result<(), InternalError>)
        requires
            old(self).wf(),
            link_ok(g.r, old(self).nodes().len()),
        ensures
            final(self).wf(),
            final(self).symbols() == old(self).symbols(),
            final(self).classes() == old(self).classes(),
            done is Ok <==> next_path_ends(old(self).nodes(), g.r, old(self).nodes().len()),
            done matches Err(e) ==> e == InternalError::EndlessList && final(self).nodes() == old(
                self,
            ).nodes(),
            done is Ok ==> final(self).nodes() == relink(
                old(self).nodes(),
                next_path(old(self).nodes(), g.r, old(self).nodes().len()),
                None,
            ),
    {
        match self.collect_next_path(g.r) {
            Some(path) => {
                self.relink_all(&path, None);
                Ok(())
            },
            None => Err(InternalError::EndlessList),
        }
    }
}

} // verus!
