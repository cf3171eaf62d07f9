use bit_set::BitSet;
use cocorust::dfa::CharSet;
use cocorust::tab::{Graph, InternalError, NodeRef, NodeType, Tab};
use std::path::PathBuf;

const T: i32 = 1;
const NT: i32 = 3;

fn table() -> Tab {
    let src = PathBuf::from("G.atg");
    Tab::new(None, None, None, None, &src, PathBuf::from("."))
}

fn set_of(items: &[usize]) -> BitSet {
    let mut s = BitSet::new();
    for i in items {
        s.insert(*i);
    }
    s
}

fn leaf(tab: &mut Tab, typ: NodeType, sym: usize) -> Graph {
    let p = tab.new_node(typ, Some(sym), 0);
    Graph::new1(Some(p))
}

/// x y A B with `B = [ "y" ] .` and `A = [ "x" ] B .`
fn option_then_nonterminal() -> (Tab, [usize; 5]) {
    let mut tab = table();
    let eof = tab.new_sym(T, String::from("EOF"), 0);
    let x = tab.new_sym(T, String::from("\"x\""), 1);
    let y = tab.new_sym(T, String::from("\"y\""), 1);
    let a = tab.new_sym(NT, String::from("A"), 2);
    let b = tab.new_sym(NT, String::from("B"), 3);
    let mut g = leaf(&mut tab, NodeType::T, y);
    tab.make_option(&mut g);
    assert_eq!(tab.finish(&g), Ok(()));
    tab.set_sym_graph(b, g.l);
    let mut g1 = leaf(&mut tab, NodeType::T, x);
    tab.make_option(&mut g1);
    let g2 = leaf(&mut tab, NodeType::Nt, b);
    assert_eq!(tab.make_sequence(&mut g1, &g2), Ok(()));
    assert_eq!(tab.finish(&g1), Ok(()));
    tab.set_sym_graph(a, g1.l);
    (tab, [eof, x, y, a, b])
}

/// `E = T { "+" T } .` and `T = "n" | "(" E ")" .`
fn expressions() -> (Tab, [usize; 7]) {
    let mut tab = table();
    let eof = tab.new_sym(T, String::from("EOF"), 0);
    let plus = tab.new_sym(T, String::from("\"+\""), 1);
    let n = tab.new_sym(T, String::from("\"n\""), 1);
    let open = tab.new_sym(T, String::from("\"(\""), 1);
    let close = tab.new_sym(T, String::from("\")\""), 1);
    let e = tab.new_sym(NT, String::from("E"), 2);
    let t = tab.new_sym(NT, String::from("T"), 3);
    // E
    let mut g = leaf(&mut tab, NodeType::Nt, t);
    let mut body = leaf(&mut tab, NodeType::T, plus);
    let t2 = leaf(&mut tab, NodeType::Nt, t);
    assert_eq!(tab.make_sequence(&mut body, &t2), Ok(()));
    assert_eq!(tab.make_iteration(&mut body), Ok(()));
    assert_eq!(tab.make_sequence(&mut g, &body), Ok(()));
    assert_eq!(tab.finish(&g), Ok(()));
    tab.set_sym_graph(e, g.l);
    // T
    let mut alt1 = leaf(&mut tab, NodeType::T, n);
    tab.make_first_alt(&mut alt1);
    let mut alt2 = leaf(&mut tab, NodeType::T, open);
    let inner = leaf(&mut tab, NodeType::Nt, e);
    assert_eq!(tab.make_sequence(&mut alt2, &inner), Ok(()));
    let last = leaf(&mut tab, NodeType::T, close);
    assert_eq!(tab.make_sequence(&mut alt2, &last), Ok(()));
    assert_eq!(tab.make_alternative(&alt1, &alt2), Ok(()));
    assert_eq!(tab.finish(&alt1), Ok(()));
    tab.set_sym_graph(t, alt1.l);
    (tab, [eof, plus, n, open, close, e, t])
}

#[test]
fn symbols_are_numbered_and_found_by_name() {
    let mut tab = table();
    assert_eq!(tab.sym_count(), 0);
    assert_eq!(tab.find_sym("A"), None);
    let a = tab.new_sym(NT, String::from("A"), 4);
    let b = tab.new_sym(T, String::from("b"), 5);
    let again = tab.new_sym(T, String::from("A"), 6);
    assert_eq!((a, b, again), (0, 1, 2));
    assert_eq!(tab.sym_count(), 3);
    assert_eq!(tab.find_sym("A"), Some(0));
    assert_eq!(tab.find_sym("b"), Some(1));
    assert_eq!(tab.find_sym("c"), None);
    assert_eq!(tab.sym(1).n, 1);
    assert_eq!(tab.sym(1).typ, T);
    assert_eq!(tab.sym(1).line, 5);
    assert_eq!(tab.sym(0).name, "A");
    assert!(tab.sym(0).graph.is_none());
}

#[test]
fn nodes_are_numbered_and_start_unlinked() {
    let mut tab = table();
    let s = tab.new_sym(T, String::from("a"), 1);
    let p = tab.new_node(NodeType::T, Some(s), 7);
    let q = tab.new_node(NodeType::Eps, None, 8);
    assert_eq!((p.n, q.n), (0, 1));
    assert_eq!(tab.node_count(), 2);
    assert_eq!(tab.node(q).n, 1);
    assert_eq!(tab.node(q).typ, NodeType::Eps);
    assert_eq!(tab.node(q).line, 8);
    assert_eq!(tab.node(p).sym, Some(s));
    assert!(tab.node(p).next.is_none());
    assert!(!tab.node(p).up);
    tab.set_next(p, Some(q));
    tab.set_up(p, true);
    tab.set_val(q, 65);
    tab.set_line(q, 9);
    tab.set_down(q, Some(p));
    tab.set_sub(q, Some(q));
    tab.set_node_set(q, set_of(&[3, 4]));
    assert_eq!(tab.node(p).next, Some(q));
    assert!(tab.node(p).up);
    assert_eq!(tab.node(q).val, 65);
    assert_eq!(tab.node(q).line, 9);
    assert_eq!(tab.node(q).down, Some(p));
    assert_eq!(tab.node(q).sub, Some(q));
    assert_eq!(tab.node(q).set, set_of(&[3, 4]));
    assert!(tab.node(q).next.is_none());
}

#[test]
fn a_sequence_links_the_open_ends() {
    let mut tab = table();
    let a = tab.new_sym(T, String::from("a"), 1);
    let b = tab.new_sym(T, String::from("b"), 1);
    let mut g1 = leaf(&mut tab, NodeType::T, a);
    let g2 = leaf(&mut tab, NodeType::T, b);
    assert_eq!(tab.make_sequence(&mut g1, &g2), Ok(()));
    assert_eq!(g1.l, Some(NodeRef { n: 0 }));
    assert_eq!(g1.r, Some(NodeRef { n: 1 }));
    assert_eq!(tab.node(NodeRef { n: 0 }).next, Some(NodeRef { n: 1 }));
    assert_eq!(tab.node(NodeRef { n: 1 }).next, None);
    assert!(!tab.node(NodeRef { n: 0 }).up);
}

#[test]
fn an_option_wraps_its_body() {
    let mut tab = table();
    let a = tab.new_sym(T, String::from("a"), 1);
    let b = tab.new_sym(T, String::from("b"), 1);
    let mut g = leaf(&mut tab, NodeType::T, a);
    tab.make_option(&mut g);
    let opt = NodeRef { n: 1 };
    assert_eq!(g.l, Some(opt));
    assert_eq!(g.r, Some(opt));
    assert_eq!(tab.node(opt).typ, NodeType::Opt);
    assert_eq!(tab.node(opt).sub, Some(NodeRef { n: 0 }));
    assert_eq!(tab.node(opt).next, Some(NodeRef { n: 0 }));
    assert!(tab.node(NodeRef { n: 0 }).up);
    assert!(!tab.node(opt).up);
    // what follows the option follows its body too
    let g2 = leaf(&mut tab, NodeType::T, b);
    assert_eq!(tab.make_sequence(&mut g, &g2), Ok(()));
    assert_eq!(tab.node(opt).next, Some(NodeRef { n: 2 }));
    assert_eq!(tab.node(NodeRef { n: 0 }).next, Some(NodeRef { n: 2 }));
    assert_eq!(g.r, Some(NodeRef { n: 2 }));
    assert_eq!(g.l, Some(opt));
}

#[test]
fn an_iteration_leads_its_body_back() {
    let mut tab = table();
    let a = tab.new_sym(T, String::from("a"), 1);
    let b = tab.new_sym(T, String::from("b"), 1);
    let mut g = leaf(&mut tab, NodeType::T, a);
    let g2 = leaf(&mut tab, NodeType::T, b);
    assert_eq!(tab.make_sequence(&mut g, &g2), Ok(()));
    assert_eq!(tab.make_iteration(&mut g), Ok(()));
    let iter = NodeRef { n: 2 };
    assert_eq!(g.l, Some(iter));
    assert_eq!(g.r, Some(iter));
    assert_eq!(tab.node(iter).typ, NodeType::Iter);
    assert_eq!(tab.node(iter).sub, Some(NodeRef { n: 0 }));
    assert_eq!(tab.node(iter).next, None);
    assert_eq!(tab.node(NodeRef { n: 0 }).next, Some(NodeRef { n: 1 }));
    assert_eq!(tab.node(NodeRef { n: 1 }).next, Some(iter));
    assert!(tab.node(NodeRef { n: 1 }).up);
    assert!(!tab.node(NodeRef { n: 0 }).up);
}

#[test]
fn alternatives_hang_below_each_other() {
    let mut tab = table();
    let a = tab.new_sym(T, String::from("a"), 1);
    let b = tab.new_sym(T, String::from("b"), 1);
    let c = tab.new_sym(T, String::from("c"), 1);
    let pa = tab.new_node(NodeType::T, Some(a), 11);
    let mut g1 = Graph::new1(Some(pa));
    tab.make_first_alt(&mut g1);
    let alt1 = NodeRef { n: 1 };
    assert_eq!(g1.l, Some(alt1));
    assert_eq!(g1.r, Some(alt1));
    assert_eq!(tab.node(alt1).typ, NodeType::Alt);
    assert_eq!(tab.node(alt1).line, 11);
    assert_eq!(tab.node(alt1).sub, Some(pa));
    assert!(tab.node(pa).up);
    let pb = tab.new_node(NodeType::T, Some(b), 12);
    let g2 = Graph::new1(Some(pb));
    assert_eq!(tab.make_alternative(&g1, &g2), Ok(()));
    let alt2 = NodeRef { n: 3 };
    assert_eq!(tab.node(alt1).down, Some(alt2));
    assert_eq!(tab.node(alt2).typ, NodeType::Alt);
    assert_eq!(tab.node(alt2).sub, Some(pb));
    assert_eq!(tab.node(alt2).line, 12);
    assert!(tab.node(alt2).up);
    assert!(tab.node(pb).up);
    assert_eq!(tab.node(alt2).down, None);
    // the open ends: alt1, a, alt2, b
    assert_eq!(tab.node(alt1).next, Some(pa));
    assert_eq!(tab.node(pa).next, Some(alt2));
    assert_eq!(tab.node(alt2).next, Some(pb));
    assert_eq!(tab.node(pb).next, None);
    let g3 = leaf(&mut tab, NodeType::T, c);
    assert_eq!(tab.make_sequence(&mut g1, &g3), Ok(()));
    let pc = NodeRef { n: 4 };
    for p in [alt1, pa, alt2, pb] {
        assert_eq!(tab.node(p).next, Some(pc));
    }
    assert_eq!(g1.r, Some(pc));
    assert_eq!(g1.l, Some(alt1));
}

#[test]
fn finish_cuts_the_open_ends() {
    let mut tab = table();
    let a = tab.new_sym(T, String::from("a"), 1);
    let mut g = leaf(&mut tab, NodeType::T, a);
    tab.make_option(&mut g);
    assert_eq!(tab.node(NodeRef { n: 1 }).next, Some(NodeRef { n: 0 }));
    assert_eq!(tab.finish(&g), Ok(()));
    assert_eq!(tab.node(NodeRef { n: 1 }).next, None);
    assert_eq!(tab.node(NodeRef { n: 0 }).next, None);
    assert!(tab.node(NodeRef { n: 0 }).up);
    assert_eq!(tab.finish(&Graph::new()), Ok(()));
}

#[test]
fn a_list_without_end_is_refused() {
    let mut tab = table();
    let a = tab.new_sym(T, String::from("a"), 1);
    let p = tab.new_node(NodeType::T, Some(a), 1);
    let q = tab.new_node(NodeType::T, Some(a), 1);
    tab.set_next(p, Some(q));
    tab.set_next(q, Some(p));
    let mut g = Graph::new1(Some(p));
    assert_eq!(tab.finish(&g), Err(InternalError::EndlessList));
    let other = Graph::new1(Some(q));
    assert_eq!(tab.make_sequence(&mut g, &other), Err(InternalError::EndlessList));
    assert_eq!(tab.make_iteration(&mut g), Err(InternalError::EndlessList));
    assert_eq!(tab.node_count(), 2);
    assert_eq!(g.l, Some(p));
    assert_eq!(g.r, Some(p));
    assert_eq!(tab.node(p).next, Some(q));
    assert_eq!(tab.node(q).next, Some(p));
    assert!(!tab.node(p).up);
    let r = tab.new_node(NodeType::Alt, None, 1);
    tab.set_down(r, Some(r));
    let alts = Graph::new1(Some(r));
    let fine = Graph::new1(Some(tab.new_node(NodeType::T, Some(a), 1)));
    assert_eq!(tab.make_alternative(&alts, &fine), Err(InternalError::EndlessList));
    assert_eq!(tab.make_alternative(&g, &fine), Err(InternalError::EndlessList));
    assert_eq!(tab.node_count(), 4);
}

#[test]
fn an_option_before_a_deletable_nonterminal() {
    let (mut tab, [_eof, x, y, a, b]) = option_then_nonterminal();
    assert!(!tab.sym(a).deletable);
    tab.comp_deletable_symbols();
    assert!(tab.sym(a).deletable);
    assert!(tab.sym(b).deletable);
    assert!(!tab.sym(x).deletable);
    assert!(!tab.sym(y).deletable);
    assert_eq!(tab.comp_first_sets(), Ok(()));
    assert_eq!(tab.sym(b).first, set_of(&[y]));
    assert_eq!(tab.sym(a).first, set_of(&[x, y]));
    let mut expected = set_of(&[x]);
    expected.union_with(&tab.sym(b).first);
    assert_eq!(tab.sym(a).first, expected);
    assert!(tab.sym(a).first_ready);
    assert!(tab.sym(b).first_ready);
    assert_eq!(tab.sym(x).first, BitSet::new());
}

#[test]
fn deletability_of_nodes_and_rests() {
    let (tab, [_eof, _x, _y, _a, b]) = option_then_nonterminal();
    let del = tab.deletability();
    // nodes: 0 "y", 1 [..], 2 "x", 3 [..], 4 B
    assert!(!del.del_node(NodeRef { n: 0 }));
    assert!(del.del_node(NodeRef { n: 1 }));
    assert!(!del.del_node(NodeRef { n: 2 }));
    assert!(del.del_node(NodeRef { n: 3 }));
    assert!(del.del_node(NodeRef { n: 4 }));
    assert!(!del.del_node(NodeRef { n: 5 }));
    assert!(del.del_graph(Some(NodeRef { n: 3 })));
    assert!(del.del_graph(Some(NodeRef { n: 4 })));
    assert!(!del.del_graph(Some(NodeRef { n: 2 })));
    assert!(del.del_graph(None));
    assert!(del.del_sub_graph(None));
    assert!(!del.del_sub_graph(Some(NodeRef { n: 0 })));
    assert!(del.del_sub_graph(Some(NodeRef { n: 1 })));
    assert!(del.del_sym(b));
    assert!(!del.del_sym(0));
    assert!(!del.del_sym(99));
}

#[test]
fn a_symbol_marked_deletable_stays_so() {
    let mut tab = table();
    let x = tab.new_sym(T, String::from("x"), 1);
    let a = tab.new_sym(NT, String::from("A"), 1);
    let g = leaf(&mut tab, NodeType::T, x);
    assert_eq!(tab.finish(&g), Ok(()));
    tab.set_sym_graph(a, g.l);
    tab.comp_deletable_symbols();
    assert!(!tab.sym(a).deletable);
    tab.set_deletable(a, true);
    tab.comp_deletable_symbols();
    assert!(tab.sym(a).deletable);
    assert!(!tab.sym(x).deletable);
}

#[test]
fn deletability_through_a_chain_of_nonterminals() {
    // A = B B .  B = C .  C = { "x" } .  D = A "x" .
    let mut tab = table();
    let x = tab.new_sym(T, String::from("x"), 1);
    let a = tab.new_sym(NT, String::from("A"), 1);
    let b = tab.new_sym(NT, String::from("B"), 1);
    let c = tab.new_sym(NT, String::from("C"), 1);
    let d = tab.new_sym(NT, String::from("D"), 1);
    let mut g = leaf(&mut tab, NodeType::Nt, b);
    let g2 = leaf(&mut tab, NodeType::Nt, b);
    assert_eq!(tab.make_sequence(&mut g, &g2), Ok(()));
    assert_eq!(tab.finish(&g), Ok(()));
    tab.set_sym_graph(a, g.l);
    let g = leaf(&mut tab, NodeType::Nt, c);
    assert_eq!(tab.finish(&g), Ok(()));
    tab.set_sym_graph(b, g.l);
    let mut g = leaf(&mut tab, NodeType::T, x);
    assert_eq!(tab.make_iteration(&mut g), Ok(()));
    assert_eq!(tab.finish(&g), Ok(()));
    tab.set_sym_graph(c, g.l);
    let mut g = leaf(&mut tab, NodeType::Nt, a);
    let g2 = leaf(&mut tab, NodeType::T, x);
    assert_eq!(tab.make_sequence(&mut g, &g2), Ok(()));
    assert_eq!(tab.finish(&g), Ok(()));
    tab.set_sym_graph(d, g.l);
    tab.comp_deletable_symbols();
    assert!(tab.sym(a).deletable);
    assert!(tab.sym(b).deletable);
    assert!(tab.sym(c).deletable);
    assert!(!tab.sym(d).deletable);
    assert!(!tab.sym(x).deletable);
    assert_eq!(tab.comp_first_sets(), Ok(()));
    for s in [a, b, c, d] {
        assert_eq!(tab.sym(s).first, set_of(&[x]));
    }
}

#[test]
fn start_and_follow_sets_of_expressions() {
    let (mut tab, [eof, plus, n, open, close, e, t]) = expressions();
    tab.comp_deletable_symbols();
    assert!(!tab.sym(e).deletable);
    assert!(!tab.sym(t).deletable);
    assert_eq!(tab.comp_first_sets(), Ok(()));
    assert_eq!(tab.sym(e).first, set_of(&[n, open]));
    assert_eq!(tab.sym(t).first, set_of(&[n, open]));
    assert_eq!(tab.comp_follow_sets(e, eof), Ok(()));
    assert_eq!(tab.sym(e).follow, set_of(&[eof, close]));
    assert_eq!(tab.sym(t).follow, set_of(&[plus, eof, close]));
    assert_eq!(tab.sym(plus).follow, BitSet::new());
    // the sets are kept beside what was there
    assert_eq!(tab.sym(e).first, set_of(&[n, open]));
    assert_eq!(tab.sym(e).name, "E");
}

#[test]
fn follow_holds_what_starts_every_successor() {
    let (tab, [eof, plus, _n, _open, close, e, t]) = expressions();
    let del = tab.deletability();
    let first = tab.first_sets(&del).unwrap();
    let follow = tab.follow_sets(&del, &first, e, eof).unwrap();
    let mut i = 0;
    while i < tab.node_count() {
        let node = tab.node(NodeRef { n: i });
        if node.typ == NodeType::Nt {
            if let Some(next) = node.next {
                let starts = first.first_of_node(next);
                assert!(starts.is_subset(follow.follow_of_sym(node.sym.unwrap())));
            }
        }
        i += 1;
    }
    assert!(follow.follow_of_sym(t).contains(plus));
    assert!(follow.follow_of_sym(e).contains(close));
    assert_eq!(first.first_of_sym(plus), &BitSet::new());
}

#[test]
fn follow_of_a_deletable_tail() {
    let (mut tab, [eof, _x, y, a, b]) = option_then_nonterminal();
    assert_eq!(tab.comp_follow_sets(a, eof), Ok(()));
    assert_eq!(tab.sym(a).follow, set_of(&[eof]));
    assert_eq!(tab.sym(b).follow, set_of(&[eof]));
    assert_eq!(tab.sym(y).follow, BitSet::new());
}

#[test]
fn a_node_for_any_symbol_starts_with_its_set() {
    let mut tab = table();
    let x = tab.new_sym(T, String::from("x"), 1);
    let y = tab.new_sym(T, String::from("y"), 1);
    let a = tab.new_sym(NT, String::from("A"), 1);
    let p = tab.new_node(NodeType::Any, None, 1);
    tab.set_node_set(p, set_of(&[x, y]));
    let g = Graph::new1(Some(p));
    assert_eq!(tab.finish(&g), Ok(()));
    tab.set_sym_graph(a, g.l);
    assert_eq!(tab.comp_first_sets(), Ok(()));
    assert_eq!(tab.sym(a).first, set_of(&[x, y]));
    tab.comp_deletable_symbols();
    assert!(!tab.sym(a).deletable);
}

#[test]
fn classes_are_numbered_and_found() {
    let mut tab = table();
    let mut letters = CharSet::new();
    for c in 'a'..='z' {
        letters.set(c as i32);
    }
    let mut digits = CharSet::new();
    for c in '0'..='9' {
        digits.set(c as i32);
    }
    let mut same = digits.clone();
    assert_eq!(tab.class_count(), 0);
    assert_eq!(tab.find_char_class("letter"), None);
    assert_eq!(tab.new_char_class(String::from("letter"), letters), 0);
    assert_eq!(tab.new_char_class(String::from("digit"), digits), 1);
    assert_eq!(tab.new_char_class(String::from("number"), same.clone()), 2);
    assert_eq!(tab.class_count(), 3);
    assert_eq!(tab.find_char_class("digit"), Some(1));
    assert_eq!(tab.find_char_class("letter"), Some(0));
    assert_eq!(tab.find_char_class("blank"), None);
    assert_eq!(tab.find_char_class_by_set(&same), Some(1));
    same.set('a' as i32);
    assert_eq!(tab.find_char_class_by_set(&same), None);
    assert_eq!(tab.char_class_set(0).elements(), 26);
    assert_eq!(tab.char_class_set(1).first(), '0' as i32);
}
