use bit_set::BitSet;
use cocorust::ll1::ConflictKind;
use cocorust::tab::{Graph, NodeRef, NodeType, Tab};
use std::path::PathBuf;

const T: i32 = 1;
const NT: i32 = 3;

fn table() -> Tab {
    let src = PathBuf::from("G.atg");
    Tab::new(None, None, None, None, &src, PathBuf::from("."))
}

fn set_of(items: &[usize]) -> BitSet {
    let mut s = BitSet::new();
    for i in items {
        s.insert(*i);
    }
    s
}

fn leaf(tab: &mut Tab, typ: NodeType, sym: usize) -> Graph {
    let p = tab.new_node(typ, Some(sym), 0);
    Graph::new1(Some(p))
}

fn pair(tab: &mut Tab, first: usize, second: usize) -> Graph {
    let mut g = leaf(tab, NodeType::T, first);
    let g2 = leaf(tab, NodeType::T, second);
    assert_eq!(tab.make_sequence(&mut g, &g2), Ok(()));
    g
}

#[test]
fn two_alternatives_with_the_same_start() {
    // A = "+" "x" | "+" "y" .
    let mut tab = table();
    let eof = tab.new_sym(T, String::from("EOF"), 0);
    let plus = tab.new_sym(T, String::from("\"+\""), 1);
    let x = tab.new_sym(T, String::from("\"x\""), 1);
    let y = tab.new_sym(T, String::from("\"y\""), 1);
    let a = tab.new_sym(NT, String::from("A"), 2);
    let mut g1 = pair(&mut tab, plus, x);
    tab.make_first_alt(&mut g1);
    let first_alt = g1.l.unwrap();
    let g2 = pair(&mut tab, plus, y);
    assert_eq!(tab.make_alternative(&g1, &g2), Ok(()));
    assert_eq!(tab.finish(&g1), Ok(()));
    tab.set_sym_graph(a, g1.l);
    let list = tab.check_ll1(a, eof).unwrap();
    assert_eq!(list.len(), 1);
    assert_eq!(list[0].sym, a);
    assert_eq!(tab.sym(list[0].sym).name, "A");
    assert_eq!(list[0].node, first_alt.n);
    assert_eq!(list[0].kind, ConflictKind::Alternatives);
    assert_eq!(list[0].terminals, set_of(&[plus]));
}

#[test]
fn a_resolver_decides_between_alternatives() {
    // A = IF(..) "+" "x" | "+" "y" .
    let mut tab = table();
    let eof = tab.new_sym(T, String::from("EOF"), 0);
    let plus = tab.new_sym(T, String::from("\"+\""), 1);
    let x = tab.new_sym(T, String::from("\"x\""), 1);
    let y = tab.new_sym(T, String::from("\"y\""), 1);
    let a = tab.new_sym(NT, String::from("A"), 2);
    let resolver = tab.new_node(NodeType::Rslv, None, 2);
    let mut g1 = Graph::new1(Some(resolver));
    let rest = pair(&mut tab, plus, x);
    assert_eq!(tab.make_sequence(&mut g1, &rest), Ok(()));
    tab.make_first_alt(&mut g1);
    let g2 = pair(&mut tab, plus, y);
    assert_eq!(tab.make_alternative(&g1, &g2), Ok(()));
    assert_eq!(tab.finish(&g1), Ok(()));
    tab.set_sym_graph(a, g1.l);
    assert_eq!(tab.check_ll1(a, eof).unwrap().len(), 0);
    tab.comp_first_sets().unwrap();
    assert_eq!(tab.sym(a).first, set_of(&[plus]));
    // a resolver at the later alternative comes too late
    let mut tab = table();
    let eof = tab.new_sym(T, String::from("EOF"), 0);
    let plus = tab.new_sym(T, String::from("\"+\""), 1);
    let a = tab.new_sym(NT, String::from("A"), 2);
    let mut g1 = leaf(&mut tab, NodeType::T, plus);
    tab.make_first_alt(&mut g1);
    let resolver = tab.new_node(NodeType::Rslv, None, 2);
    let mut g2 = Graph::new1(Some(resolver));
    let rest = leaf(&mut tab, NodeType::T, plus);
    assert_eq!(tab.make_sequence(&mut g2, &rest), Ok(()));
    assert_eq!(tab.make_alternative(&g1, &g2), Ok(()));
    assert_eq!(tab.finish(&g1), Ok(()));
    tab.set_sym_graph(a, g1.l);
    let list = tab.check_ll1(a, eof).unwrap();
    assert_eq!(list.len(), 1);
    assert_eq!(list[0].kind, ConflictKind::Alternatives);
    assert_eq!(list[0].terminals, set_of(&[plus]));
}

#[test]
fn alternatives_with_different_starts_are_fine() {
    // A = "+" "x" | "x" "y" | "y" .
    let mut tab = table();
    let eof = tab.new_sym(T, String::from("EOF"), 0);
    let plus = tab.new_sym(T, String::from("\"+\""), 1);
    let x = tab.new_sym(T, String::from("\"x\""), 1);
    let y = tab.new_sym(T, String::from("\"y\""), 1);
    let a = tab.new_sym(NT, String::from("A"), 2);
    let mut g1 = pair(&mut tab, plus, x);
    tab.make_first_alt(&mut g1);
    let g2 = pair(&mut tab, x, y);
    assert_eq!(tab.make_alternative(&g1, &g2), Ok(()));
    let g3 = leaf(&mut tab, NodeType::T, y);
    assert_eq!(tab.make_alternative(&g1, &g3), Ok(()));
    assert_eq!(tab.finish(&g1), Ok(()));
    tab.set_sym_graph(a, g1.l);
    assert_eq!(tab.check_ll1(a, eof).unwrap().len(), 0);
}

#[test]
fn an_option_that_starts_like_its_successor() {
    // A = [ "x" ] "x" "y" .
    let mut tab = table();
    let eof = tab.new_sym(T, String::from("EOF"), 0);
    let x = tab.new_sym(T, String::from("\"x\""), 1);
    let y = tab.new_sym(T, String::from("\"y\""), 1);
    let a = tab.new_sym(NT, String::from("A"), 2);
    let mut g = leaf(&mut tab, NodeType::T, x);
    tab.make_option(&mut g);
    let option = g.l.unwrap();
    let rest = pair(&mut tab, x, y);
    assert_eq!(tab.make_sequence(&mut g, &rest), Ok(()));
    assert_eq!(tab.finish(&g), Ok(()));
    tab.set_sym_graph(a, g.l);
    let list = tab.check_ll1(a, eof).unwrap();
    assert_eq!(list.len(), 1);
    assert_eq!(list[0].sym, a);
    assert_eq!(list[0].node, option.n);
    assert_eq!(list[0].kind, ConflictKind::Successor);
    assert_eq!(list[0].terminals, set_of(&[x]));
}

#[test]
fn a_deletable_tail_meets_what_follows_the_symbol() {
    // S = A "x" .   A = "y" { "x" } .
    let mut tab = table();
    let eof = tab.new_sym(T, String::from("EOF"), 0);
    let x = tab.new_sym(T, String::from("\"x\""), 1);
    let y = tab.new_sym(T, String::from("\"y\""), 1);
    let s = tab.new_sym(NT, String::from("S"), 2);
    let a = tab.new_sym(NT, String::from("A"), 3);
    let mut g = leaf(&mut tab, NodeType::Nt, a);
    let g2 = leaf(&mut tab, NodeType::T, x);
    assert_eq!(tab.make_sequence(&mut g, &g2), Ok(()));
    assert_eq!(tab.finish(&g), Ok(()));
    tab.set_sym_graph(s, g.l);
    let mut g = leaf(&mut tab, NodeType::T, y);
    let mut body = leaf(&mut tab, NodeType::T, x);
    assert_eq!(tab.make_iteration(&mut body), Ok(()));
    let iteration = body.l.unwrap();
    assert_eq!(tab.make_sequence(&mut g, &body), Ok(()));
    assert_eq!(tab.finish(&g), Ok(()));
    tab.set_sym_graph(a, g.l);
    let list = tab.check_ll1(s, eof).unwrap();
    assert_eq!(list.len(), 1);
    assert_eq!(list[0].sym, a);
    assert_eq!(list[0].node, iteration.n);
    assert_eq!(list[0].kind, ConflictKind::Successor);
    assert_eq!(list[0].terminals, set_of(&[x]));
}

#[test]
fn an_option_with_deletable_contents() {
    // A = [ [ "x" ] ] "y" .
    let mut tab = table();
    let eof = tab.new_sym(T, String::from("EOF"), 0);
    let x = tab.new_sym(T, String::from("\"x\""), 1);
    let y = tab.new_sym(T, String::from("\"y\""), 1);
    let a = tab.new_sym(NT, String::from("A"), 2);
    let mut g = leaf(&mut tab, NodeType::T, x);
    tab.make_option(&mut g);
    tab.make_option(&mut g);
    let outer = g.l.unwrap();
    let rest = leaf(&mut tab, NodeType::T, y);
    assert_eq!(tab.make_sequence(&mut g, &rest), Ok(()));
    assert_eq!(tab.finish(&g), Ok(()));
    tab.set_sym_graph(a, g.l);
    let list = tab.check_ll1(a, eof).unwrap();
    assert_eq!(list.len(), 1);
    assert_eq!(list[0].node, outer.n);
    assert_eq!(list[0].kind, ConflictKind::DeletableContents);
    assert_eq!(list[0].terminals, BitSet::new());
    assert_eq!(list[0].sym, a);
}

#[test]
fn a_node_for_any_symbol_with_nothing_left() {
    let mut tab = table();
    let eof = tab.new_sym(T, String::from("EOF"), 0);
    let a = tab.new_sym(NT, String::from("A"), 2);
    let p = tab.new_node(NodeType::Any, None, 1);
    let g = Graph::new1(Some(p));
    assert_eq!(tab.finish(&g), Ok(()));
    tab.set_sym_graph(a, g.l);
    let list = tab.check_ll1(a, eof).unwrap();
    assert_eq!(list.len(), 1);
    assert_eq!(list[0].kind, ConflictKind::EmptyAny);
    assert_eq!(list[0].node, p.n);
    assert_eq!(list[0].sym, a);
    tab.set_node_set(p, set_of(&[eof]));
    assert_eq!(tab.check_ll1(a, eof).unwrap().len(), 0);
}

#[test]
fn nodes_belong_to_the_productions_that_reach_them() {
    // A = "x" [ "y" ] .   B = "y" .
    let mut tab = table();
    let x = tab.new_sym(T, String::from("\"x\""), 1);
    let y = tab.new_sym(T, String::from("\"y\""), 1);
    let a = tab.new_sym(NT, String::from("A"), 2);
    let b = tab.new_sym(NT, String::from("B"), 3);
    let mut g = leaf(&mut tab, NodeType::T, x);
    let mut opt = leaf(&mut tab, NodeType::T, y);
    tab.make_option(&mut opt);
    assert_eq!(tab.make_sequence(&mut g, &opt), Ok(()));
    assert_eq!(tab.finish(&g), Ok(()));
    tab.set_sym_graph(a, g.l);
    let g = leaf(&mut tab, NodeType::T, y);
    assert_eq!(tab.finish(&g), Ok(()));
    tab.set_sym_graph(b, g.l);
    let unused = tab.new_node(NodeType::Eps, None, 0);
    let owners = tab.owner_sets().unwrap();
    assert_eq!(owners.len(), 5);
    assert_eq!(owners[0], set_of(&[a]));
    assert_eq!(owners[1], set_of(&[a]));
    assert_eq!(owners[2], set_of(&[a]));
    assert_eq!(owners[3], set_of(&[b]));
    assert_eq!(owners[unused.n], BitSet::new());
    assert_eq!(tab.node(NodeRef { n: 3 }).sym, Some(y));
}
