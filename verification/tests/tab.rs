use bit_set::BitSet;
use cocorust::parser::Parser;
use cocorust::scanner::Scanner;
use cocorust::tab::{
    Graph, NodeObject, NodeRef, NodeType, Position, State, Symbol, Tab, TokenKind, TransitionCode,
};
use cocorust::trace::Trace;
use std::path::PathBuf;

#[test]
fn position_new_keeps_its_parts() {
    let p = Position::new(3, 17, 2);
    assert_eq!(p.beg, 3);
    assert_eq!(p.end, 17);
    assert_eq!(p.col, 2);
}

#[test]
fn a_new_symbol_knows_kind_name_and_line() {
    let s = Symbol::new(NodeType::Nt.code(), String::from("Expr"), 12);
    assert_eq!(s.n, 0);
    assert_eq!(s.typ, 3);
    assert_eq!(s.name, "Expr");
    assert!(s.graph.is_none());
    assert_eq!(s.token_kind, TokenKind::Fixed);
    assert!(!s.deletable);
    assert!(!s.first_ready);
    assert_eq!(s.first, BitSet::new());
    assert_eq!(s.follow, BitSet::new());
    assert_eq!(s.nts, BitSet::new());
    assert_eq!(s.line, 12);
    assert_eq!((s.attr_pos.beg, s.attr_pos.end, s.attr_pos.col), (0, 0, 0));
    assert_eq!((s.sem_pos.beg, s.sem_pos.end, s.sem_pos.col), (0, 0, 0));
    assert_eq!(s.ret_type, "");
    assert_eq!(s.ret_var, "");
}

#[test]
fn node_types_are_numbered_in_order() {
    let all = [
        NodeType::Nil,
        NodeType::T,
        NodeType::Pr,
        NodeType::Nt,
        NodeType::Clas,
        NodeType::Chr,
        NodeType::Wt,
        NodeType::Any,
        NodeType::Eps,
        NodeType::Sync,
        NodeType::Sem,
        NodeType::Alt,
        NodeType::Iter,
        NodeType::Opt,
        NodeType::Rslv,
    ];
    for (i, t) in all.iter().enumerate() {
        assert_eq!(t.code(), i as i32);
    }
}

#[test]
fn a_new_node_is_unlinked() {
    let n = NodeObject::new(NodeType::T, Some(4), 31);
    assert_eq!(n.n, 0);
    assert_eq!(n.typ, NodeType::T);
    assert!(n.next.is_none());
    assert!(n.down.is_none());
    assert!(n.sub.is_none());
    assert!(!n.up);
    assert_eq!(n.sym, Some(4));
    assert_eq!(n.val, 0);
    assert_eq!(n.code, TransitionCode::Normal);
    assert_eq!(n.set, BitSet::new());
    assert_eq!((n.pos.beg, n.pos.end, n.pos.col), (0, 0, 0));
    assert_eq!(n.line, 31);
    assert_eq!(n.ret_var, "");
    let e = NodeObject::new(NodeType::Eps, None, 0);
    assert_eq!(e.sym, None);
    assert_eq!(e.typ, NodeType::Eps);
}

#[test]
fn graphs_from_nothing_one_node_and_two() {
    let g = Graph::new();
    assert!(g.l.is_none());
    assert!(g.r.is_none());
    let p = Some(NodeRef { n: 3 });
    let g = Graph::new1(p);
    assert_eq!(g.l, p);
    assert_eq!(g.r, p);
    let q = Some(NodeRef { n: 8 });
    let g = Graph::new2(p, q);
    assert_eq!(g.l, p);
    assert_eq!(g.r, q);
    let g = Graph::new2(None, q);
    assert_eq!(g.l, None);
    assert_eq!(g.r, q);
}

#[test]
fn state_can_be_made() {
    let _s: State = State::new();
}

#[test]
fn tab_keeps_what_it_is_given() {
    let src = PathBuf::from("/work/g/Calc.atg");
    let tab = Tab::new(
        Some("calc"),
        Some(PathBuf::from("/frames")),
        Some("AFG"),
        Some(PathBuf::from("/out")),
        &src,
        PathBuf::from("/work/g"),
    );
    assert_eq!(tab.src_name(), &src);
    assert_eq!(tab.src_dir(), &PathBuf::from("/work/g"));
    assert_eq!(tab.ns_name(), &Some(String::from("calc")));
    assert_eq!(tab.frame_dir(), &Some(PathBuf::from("/frames")));
    assert_eq!(tab.out_dir(), &PathBuf::from("/out"));
    assert_eq!(tab.ddt_string(), &Some(String::from("AFG")));
}

#[test]
fn tab_without_options_writes_beside_the_grammar() {
    let src = PathBuf::from("/work/g/Calc.atg");
    let tab = Tab::new(None, None, None, None, &src, PathBuf::from("/work/g"));
    assert_eq!(tab.src_name(), &src);
    assert_eq!(tab.ns_name(), &None);
    assert_eq!(tab.frame_dir(), &None);
    assert_eq!(tab.out_dir(), &src);
    assert_eq!(tab.ddt_string(), &None);
}

#[test]
fn parser_starts_without_errors() {
    let src = PathBuf::from("Calc.atg");
    let scanner = Scanner::new(PathBuf::from("Calc.atg"));
    let trace = Trace::new(PathBuf::from("."));
    let tab = Tab::new(None, None, Some("S"), None, &src, PathBuf::from("."));
    let parser = Parser::new(scanner, trace, tab);
    assert_eq!(parser.errors.count, 0);
    assert_eq!(parser.scanner.grammar_file(), &src);
    assert_eq!(parser.trace.dir(), &PathBuf::from("."));
    assert_eq!(parser.tab.ddt_string(), &Some(String::from("S")));
    assert_eq!(parser.tab.out_dir(), &src);
}
