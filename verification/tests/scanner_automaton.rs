use cocorust::automaton::Dfa;
use cocorust::dfa::{CharSet, MAX_CHAR};
use cocorust::tab::{Graph, NodeRef, NodeType, Tab};
use cocorust::tokens::{ScannerError, TokenTrouble};
use std::path::PathBuf;

const T: i32 = 1;
const NT: i32 = 3;

fn table() -> Tab {
    let src = PathBuf::from("G.atg");
    Tab::new(None, None, None, None, &src, PathBuf::from("."))
}

fn range(from: char, to: char) -> CharSet {
    let mut s = CharSet::new();
    for c in from..=to {
        s.set(c as i32);
    }
    s
}

fn class(tab: &mut Tab, c: usize) -> Graph {
    let p = tab.new_node(NodeType::Clas, None, 0);
    tab.set_val(p, c as i32);
    Graph::new1(Some(p))
}

fn chr(tab: &mut Tab, c: char) -> Graph {
    let p = tab.new_node(NodeType::Chr, None, 0);
    tab.set_val(p, c as i32);
    Graph::new1(Some(p))
}

fn automaton(tab: &Tab) -> Dfa {
    match tab.make_scanner() {
        Ok(dfa) => dfa,
        Err(_) => panic!("no automaton"),
    }
}

/// The token that the automaton ends on after the whole of `text`, if it
/// gets through it.
fn run(dfa: &Dfa, text: &str) -> Option<Option<usize>> {
    let mut state = 0;
    for c in text.chars() {
        state = dfa.next_state(state, c as i32)?;
    }
    Some(dfa.state(state).accept)
}

fn assert_deterministic(dfa: &Dfa) {
    for k in 0..dfa.state_count() {
        let trans = &dfa.state(k).trans;
        for t in trans.iter() {
            assert!(0 <= t.from && t.from <= t.to && t.to <= MAX_CHAR);
            assert!(t.target < dfa.state_count());
        }
        for i in 0..trans.len() {
            for j in 0..trans.len() {
                if i != j {
                    assert!(trans[i].to < trans[j].from || trans[j].to < trans[i].from);
                }
            }
        }
    }
}

/// IDENT = letter { letter | digit } .   NUMBER = digit { digit } .
fn identifiers_and_numbers() -> (Tab, usize, usize) {
    let mut tab = table();
    let letter = tab.new_char_class(String::from("letter"), range('a', 'z'));
    let digit = tab.new_char_class(String::from("digit"), range('0', '9'));
    let ident = tab.new_sym(T, String::from("IDENT"), 1);
    let number = tab.new_sym(T, String::from("NUMBER"), 2);
    let mut g = class(&mut tab, letter);
    let mut body = class(&mut tab, letter);
    tab.make_first_alt(&mut body);
    let other = class(&mut tab, digit);
    assert_eq!(tab.make_alternative(&body, &other), Ok(()));
    assert_eq!(tab.make_iteration(&mut body), Ok(()));
    assert_eq!(tab.make_sequence(&mut g, &body), Ok(()));
    assert_eq!(tab.finish(&g), Ok(()));
    tab.set_sym_graph(ident, g.l);
    let mut g = class(&mut tab, digit);
    let mut body = class(&mut tab, digit);
    assert_eq!(tab.make_iteration(&mut body), Ok(()));
    assert_eq!(tab.make_sequence(&mut g, &body), Ok(()));
    assert_eq!(tab.finish(&g), Ok(()));
    tab.set_sym_graph(number, g.l);
    (tab, ident, number)
}

#[test]
fn identifiers_and_numbers_are_told_apart() {
    let (tab, ident, number) = identifiers_and_numbers();
    let dfa = automaton(&tab);
    assert_deterministic(&dfa);
    assert_ne!(ident, number);
    assert_eq!(run(&dfa, ""), Some(None));
    assert_eq!(run(&dfa, "a"), Some(Some(ident)));
    assert_eq!(run(&dfa, "abc"), Some(Some(ident)));
    assert_eq!(run(&dfa, "x1y2"), Some(Some(ident)));
    assert_eq!(run(&dfa, "7"), Some(Some(number)));
    assert_eq!(run(&dfa, "2024"), Some(Some(number)));
    assert_eq!(run(&dfa, "1a"), None);
    assert_eq!(run(&dfa, "a-"), None);
    assert_eq!(run(&dfa, "A"), None);
    assert_eq!(run(&dfa, " "), None);
    // the start, the state inside an identifier, the state inside a number
    assert_eq!(dfa.state_count(), 3);
    let tags: Vec<Option<usize>> = (0..3).map(|k| dfa.state(k).accept).collect();
    assert_eq!(tags.iter().filter(|t| **t == Some(ident)).count(), 1);
    assert_eq!(tags.iter().filter(|t| **t == Some(number)).count(), 1);
    assert_eq!(tags[0], None);
}

#[test]
fn transitions_follow_the_classes() {
    let (tab, _ident, _number) = identifiers_and_numbers();
    let dfa = automaton(&tab);
    let start = dfa.state(0);
    assert_eq!(start.trans.len(), 2);
    assert_eq!((start.trans[0].from, start.trans[0].to), ('0' as i32, '9' as i32));
    assert_eq!((start.trans[1].from, start.trans[1].to), ('a' as i32, 'z' as i32));
    assert_ne!(start.trans[0].target, start.trans[1].target);
    let in_number = dfa.state(start.trans[0].target);
    assert_eq!(in_number.trans.len(), 1);
    assert_eq!(in_number.trans[0].target, start.trans[0].target);
    assert_eq!(dfa.next_state(0, 'm' as i32), Some(start.trans[1].target));
    assert_eq!(dfa.next_state(0, '/' as i32), None);
    assert_eq!(dfa.next_state(0, ':' as i32), None);
    assert_eq!(dfa.next_state(0, -1), None);
    assert_eq!(dfa.next_state(0, MAX_CHAR), None);
}

#[test]
fn the_earlier_token_wins() {
    // IF = 'i' 'f' .   IDENT = letter { letter } .
    let mut tab = table();
    let letter = tab.new_char_class(String::from("letter"), range('a', 'z'));
    let kw = tab.new_sym(T, String::from("\"if\""), 1);
    let ident = tab.new_sym(T, String::from("IDENT"), 2);
    let mut g = chr(&mut tab, 'i');
    let f = chr(&mut tab, 'f');
    assert_eq!(tab.make_sequence(&mut g, &f), Ok(()));
    assert_eq!(tab.finish(&g), Ok(()));
    tab.set_sym_graph(kw, g.l);
    let mut g = class(&mut tab, letter);
    let mut body = class(&mut tab, letter);
    assert_eq!(tab.make_iteration(&mut body), Ok(()));
    assert_eq!(tab.make_sequence(&mut g, &body), Ok(()));
    assert_eq!(tab.finish(&g), Ok(()));
    tab.set_sym_graph(ident, g.l);
    let dfa = automaton(&tab);
    assert_deterministic(&dfa);
    assert_eq!(run(&dfa, "if"), Some(Some(kw)));
    assert_eq!(run(&dfa, "i"), Some(Some(ident)));
    assert_eq!(run(&dfa, "ig"), Some(Some(ident)));
    assert_eq!(run(&dfa, "iff"), Some(Some(ident)));
    assert_eq!(run(&dfa, "f"), Some(Some(ident)));
    assert_eq!(run(&dfa, "i1"), None);
    // 'i' splits the letters of the start state into three runs
    let start = dfa.state(0);
    assert_eq!(start.trans.len(), 3);
    assert_eq!((start.trans[0].from, start.trans[0].to), ('a' as i32, 'h' as i32));
    assert_eq!((start.trans[1].from, start.trans[1].to), ('i' as i32, 'i' as i32));
    assert_eq!((start.trans[2].from, start.trans[2].to), ('j' as i32, 'z' as i32));
    assert_eq!(start.trans[0].target, start.trans[2].target);
    assert_ne!(start.trans[0].target, start.trans[1].target);
}

#[test]
fn options_and_alternatives_in_a_token() {
    // NUM = [ '-' ] digit { digit } ( 'l' | 'u' ) .
    let mut tab = table();
    let digit = tab.new_char_class(String::from("digit"), range('0', '9'));
    let num = tab.new_sym(T, String::from("NUM"), 1);
    let mut g = chr(&mut tab, '-');
    tab.make_option(&mut g);
    let d = class(&mut tab, digit);
    assert_eq!(tab.make_sequence(&mut g, &d), Ok(()));
    let mut body = class(&mut tab, digit);
    assert_eq!(tab.make_iteration(&mut body), Ok(()));
    assert_eq!(tab.make_sequence(&mut g, &body), Ok(()));
    let mut suffix = chr(&mut tab, 'l');
    tab.make_first_alt(&mut suffix);
    let u = chr(&mut tab, 'u');
    assert_eq!(tab.make_alternative(&suffix, &u), Ok(()));
    assert_eq!(tab.make_sequence(&mut g, &suffix), Ok(()));
    assert_eq!(tab.finish(&g), Ok(()));
    tab.set_sym_graph(num, g.l);
    let dfa = automaton(&tab);
    assert_deterministic(&dfa);
    assert_eq!(run(&dfa, "-12u"), Some(Some(num)));
    assert_eq!(run(&dfa, "7l"), Some(Some(num)));
    assert_eq!(run(&dfa, "7"), Some(None));
    assert_eq!(run(&dfa, "-"), Some(None));
    assert_eq!(run(&dfa, "--1"), None);
    assert_eq!(run(&dfa, "1lu"), None);
    // start, after the sign, inside the digits, at the end
    assert_eq!(dfa.state_count(), 4);
}

#[test]
fn folding_joins_states_that_behave_alike() {
    // A = 'a' 'x' .   B = 'b' 'x' .  after 'a' and after 'b' the automaton
    // expects 'x' alone, but ends different tokens behind it
    let mut tab = table();
    let a = tab.new_sym(T, String::from("A"), 1);
    let b = tab.new_sym(T, String::from("B"), 2);
    for (sym, c) in [(a, 'a'), (b, 'b')] {
        let mut g = chr(&mut tab, c);
        let x = chr(&mut tab, 'x');
        assert_eq!(tab.make_sequence(&mut g, &x), Ok(()));
        assert_eq!(tab.finish(&g), Ok(()));
        tab.set_sym_graph(sym, g.l);
    }
    let dfa = automaton(&tab);
    assert_deterministic(&dfa);
    assert_eq!(run(&dfa, "ax"), Some(Some(a)));
    assert_eq!(run(&dfa, "bx"), Some(Some(b)));
    assert_eq!(run(&dfa, "a"), Some(None));
    assert_eq!(run(&dfa, "x"), None);
    assert_eq!(dfa.state_count(), 5);
    // C = 'c' 'x' | 'd' 'x' .  here the states after 'c' and 'd' are one
    let mut tab = table();
    let c = tab.new_sym(T, String::from("C"), 1);
    let mut g = chr(&mut tab, 'c');
    let x = chr(&mut tab, 'x');
    assert_eq!(tab.make_sequence(&mut g, &x), Ok(()));
    tab.make_first_alt(&mut g);
    let mut g2 = chr(&mut tab, 'd');
    let x = chr(&mut tab, 'x');
    assert_eq!(tab.make_sequence(&mut g2, &x), Ok(()));
    assert_eq!(tab.make_alternative(&g, &g2), Ok(()));
    assert_eq!(tab.finish(&g), Ok(()));
    tab.set_sym_graph(c, g.l);
    let dfa = automaton(&tab);
    assert_deterministic(&dfa);
    assert_eq!(run(&dfa, "cx"), Some(Some(c)));
    assert_eq!(run(&dfa, "dx"), Some(Some(c)));
    assert_eq!(run(&dfa, "cd"), None);
    assert_eq!(dfa.state_count(), 3);
}

#[test]
fn folding_reports_where_the_states_went() {
    let mut tab = table();
    let c = tab.new_sym(T, String::from("C"), 1);
    let mut g = chr(&mut tab, 'c');
    let x = chr(&mut tab, 'x');
    assert_eq!(tab.make_sequence(&mut g, &x), Ok(()));
    tab.make_first_alt(&mut g);
    let mut g2 = chr(&mut tab, 'd');
    let x = chr(&mut tab, 'x');
    assert_eq!(tab.make_sequence(&mut g2, &x), Ok(()));
    assert_eq!(tab.make_alternative(&g, &g2), Ok(()));
    assert_eq!(tab.finish(&g), Ok(()));
    tab.set_sym_graph(c, g.l);
    let del = tab.deletability();
    let first = tab.first_sets(&del).unwrap();
    let owners = tab.owner_sets().unwrap();
    assert_eq!(tab.token_errors(&del, &first, &owners).len(), 0);
    let nfa = tab.scanner_nfa(&del, &first, &owners);
    assert_eq!(nfa.tokens, 1);
    assert_eq!(nfa.chars.len(), tab.node_count());
    assert!(nfa.chars[0].get('c' as i32));
    assert_eq!(nfa.chars[0].elements(), 1);
    let full = nfa.determinize();
    // start, after 'c', after 'd', at the end
    assert_eq!(full.state_count(), 4);
    assert_deterministic(&full);
    let after_c = full.next_state(0, 'c' as i32).unwrap();
    let after_d = full.next_state(0, 'd' as i32).unwrap();
    assert_ne!(after_c, after_d);
    assert_ne!(full.state(after_c).items, full.state(after_d).items);
    let (small, map) = full.minimize();
    assert_eq!(small.state_count(), 3);
    assert_eq!(map.len(), 4);
    assert_eq!(map[0], 0);
    assert_eq!(map[after_c], map[after_d]);
    assert_eq!(small.next_state(0, 'c' as i32), Some(map[after_c]));
    assert_eq!(small.next_state(0, 'd' as i32), Some(map[after_d]));
    let end = small.next_state(map[after_c], 'x' as i32).unwrap();
    assert_eq!(small.state(end).accept, Some(c));
    assert_eq!(small.state(end).trans.len(), 0);
}

#[test]
fn a_token_by_way_of_a_nonterminal_is_an_error() {
    let mut tab = table();
    let tok = tab.new_sym(T, String::from("TOK"), 14);
    let other = tab.new_sym(NT, String::from("Other"), 15);
    let mut g = chr(&mut tab, 'a');
    let bad = tab.new_node(NodeType::Nt, Some(other), 14);
    assert_eq!(tab.make_sequence(&mut g, &Graph::new1(Some(bad))), Ok(()));
    assert_eq!(tab.finish(&g), Ok(()));
    tab.set_sym_graph(tok, g.l);
    match tab.make_scanner() {
        Err(ScannerError::Grammar(list)) => {
            assert_eq!(list.len(), 1);
            assert_eq!(list[0].kind, TokenTrouble::ReachesNonterminal);
            assert_eq!(list[0].sym, tok);
            assert_eq!(list[0].node, bad.n);
            assert_eq!(list[0].line, 14);
        }
        _ => panic!("the error was not found"),
    }
}

#[test]
fn a_terminal_inside_a_token_is_an_error() {
    let mut tab = table();
    let one = tab.new_sym(T, String::from("ONE"), 4);
    let two = tab.new_sym(T, String::from("TWO"), 9);
    let g = chr(&mut tab, '1');
    assert_eq!(tab.finish(&g), Ok(()));
    tab.set_sym_graph(one, g.l);
    let mut g = chr(&mut tab, '2');
    let bad = tab.new_node(NodeType::T, Some(one), 9);
    assert_eq!(tab.make_sequence(&mut g, &Graph::new1(Some(bad))), Ok(()));
    let any = tab.new_node(NodeType::Any, None, 9);
    assert_eq!(tab.make_sequence(&mut g, &Graph::new1(Some(any))), Ok(()));
    assert_eq!(tab.finish(&g), Ok(()));
    tab.set_sym_graph(two, g.l);
    match tab.make_scanner() {
        Err(ScannerError::Grammar(list)) => {
            assert_eq!(list.len(), 2);
            assert_eq!(list[0].kind, TokenTrouble::NotACharacter);
            assert_eq!(list[1].kind, TokenTrouble::NotACharacter);
            assert_eq!((list[0].node, list[1].node), (bad.n, any.n));
            assert_eq!((list[0].sym, list[1].sym), (two, two));
            assert_eq!(list[0].line, 9);
        }
        _ => panic!("the errors were not found"),
    }
}

#[test]
fn classes_that_are_missing_or_empty_are_errors() {
    let mut tab = table();
    let empty = tab.new_char_class(String::from("none"), CharSet::new());
    let tok = tab.new_sym(T, String::from("TOK"), 3);
    let mut g = class(&mut tab, empty);
    let missing = class(&mut tab, 17);
    assert_eq!(tab.make_sequence(&mut g, &missing), Ok(()));
    assert_eq!(tab.finish(&g), Ok(()));
    tab.set_sym_graph(tok, g.l);
    match tab.make_scanner() {
        Err(ScannerError::Grammar(list)) => {
            assert_eq!(list.len(), 2);
            assert_eq!(list[0].kind, TokenTrouble::EmptyClass);
            assert_eq!(list[0].node, 0);
            assert_eq!(list[1].kind, TokenTrouble::UndeclaredClass);
            assert_eq!(list[1].node, 1);
            assert_eq!((list[0].sym, list[1].sym), (tok, tok));
            assert_eq!((list[0].line, list[1].line), (3, 3));
        }
        _ => panic!("the errors were not found"),
    }
    // a class node that belongs to no token is nobody's error
    let mut tab = table();
    let _stray = class(&mut tab, 5);
    let dfa = automaton(&tab);
    assert_eq!(dfa.state_count(), 1);
    assert_eq!(dfa.state(0).trans.len(), 0);
    assert_eq!(dfa.state(0).accept, None);
    assert_eq!(tab.node(NodeRef { n: 0 }).val, 5);
}

#[test]
fn run_end_finds_the_end_of_a_run() {
    let mut s = range('a', 'f');
    s.set('x' as i32);
    assert_eq!(s.run_end('a' as i32), 'f' as i32);
    assert_eq!(s.run_end('c' as i32), 'f' as i32);
    assert_eq!(s.run_end('f' as i32), 'f' as i32);
    assert_eq!(s.run_end('g' as i32), 'w' as i32);
    assert_eq!(s.run_end('x' as i32), 'x' as i32);
    assert_eq!(s.run_end('y' as i32), MAX_CHAR);
    assert_eq!(s.run_end(0), 'a' as i32 - 1);
    assert_eq!(CharSet::new().run_end(0), MAX_CHAR);
    assert_eq!(CharSet::new().run_end(MAX_CHAR), MAX_CHAR);
    let mut full = CharSet::new();
    full.fill();
    assert_eq!(full.run_end(77), MAX_CHAR);
    let copy = s.copy();
    assert!(copy.equals(&s));
}
