use nfa_regex::automaton::{Edge, Node, EPSILON};
use nfa_regex::bits::{lowest_bit, single_bit, test_bit, with_bit, without_bit};
use nfa_regex::nfa::Nfa;
use nfa_regex::re::{Op, Regex};
use std::collections::BTreeSet;

fn compile(pattern: &str) -> Nfa {
    let regex = Regex::from(&String::from(pattern)).build_postfix_form().unwrap();
    Nfa::build_nfa(regex).unwrap()
}

#[test]
fn test_4() {
    let s = String::from("a*|b*");
    let regex = Regex::from(&s).build_postfix_form().unwrap();
    let nfa = Nfa::build_nfa(regex).unwrap();
    let set = nfa.step_epsilon(1 << nfa.get_start_node());
    assert_eq!(set, 529);
    let set = nfa.step(set, b'a');
    assert_eq!(set, 513);
    let set = nfa.step(set, b'a');
    assert_eq!(set, 513);
    let set = nfa.step(set, b'b');
    assert_eq!(set, 0);
}

#[test]
fn test_6() {
    let s = String::from("(b|c)*|(a|d)*");
    let regex = Regex::from(&s).build_postfix_form().unwrap();
    let nfa = Nfa::build_nfa(regex).unwrap();
    let set = nfa.step_epsilon(1 << nfa.get_start_node());
    assert_eq!(set, 132357);
    let set = nfa.step(set, b'a');
    assert_eq!(set, 132352);
    let set = nfa.step(set, b'd');
    assert_eq!(set, 132352);
    let set = nfa.step(set, b'b');
    assert_eq!(set, 0);
}

#[test]
fn test_7() {
    let s = String::from("a*b*c*");
    let regex = Regex::from(&s).build_postfix_form().unwrap();
    let nfa = Nfa::build_nfa(regex).unwrap();
    let set = nfa.step_epsilon(1 << nfa.get_start_node());
    assert_eq!(set, 2321);
    let set = nfa.step(set, b'a');
    assert_eq!(set, 2321);
    let set = nfa.step(set, b'a');
    assert_eq!(set, 2321);
    let set = nfa.step(set, b'b');
    assert_eq!(set, 2320);
    let set = nfa.step(set, b'c');
    assert_eq!(set, 2304);
    let set = nfa.step(set, b'd');
    assert_eq!(set, 0);
}

#[test]
fn test_8() {
    let re = String::from("abb*");
    let regex = Regex::from(&re).build_postfix_form().unwrap();
    let nfa = Nfa::build_nfa(regex).unwrap();
    let set = nfa.step_epsilon(1 << nfa.get_start_node());
    assert_eq!(set, 1);
    let set = nfa.step(set, b'a');
    assert_eq!(set, 4);
}

#[test]
fn accept_only_after_the_mandatory_byte() {
    let nfa = compile("abb*");
    let set = nfa.get_start_state();
    assert!(!nfa.is_accept_state(set));
    let set = nfa.step(set, b'a');
    assert!(set != 0);
    assert!(!nfa.is_accept_state(set));
    let set = nfa.step(set, b'b');
    assert!(nfa.is_accept_state(set));
    let set = nfa.step(set, b'b');
    assert!(nfa.is_accept_state(set));
}

#[test]
fn literal_makes_two_nodes_and_one_edge() {
    let nfa = compile("a");
    assert_eq!(nfa.size(), 2);
    assert_eq!(nfa.get_start_node(), 0);
    assert_eq!(nfa.get_accept_node(), 1);
    assert_eq!(*nfa.get_node(0), Node(Some(Edge { label: 97, out: 1 }), None));
    assert_eq!(*nfa.get_node(1), Node(None, None));
}

#[test]
fn concat_adds_one_epsilon_edge_and_no_node() {
    let nfa = compile("ab");
    assert_eq!(nfa.size(), 4);
    assert_eq!(nfa.get_start_node(), 0);
    assert_eq!(nfa.get_accept_node(), 3);
    assert_eq!(*nfa.get_node(1), Node(Some(Edge { label: EPSILON, out: 2 }), None));
    assert_eq!(*nfa.get_node(2), Node(Some(Edge { label: 98, out: 3 }), None));
}

#[test]
fn star_adds_four_epsilon_edges() {
    let nfa = compile("a*");
    assert_eq!(nfa.size(), 4);
    assert_eq!(nfa.get_start_node(), 2);
    assert_eq!(nfa.get_accept_node(), 3);
    assert_eq!(
        *nfa.get_node(1),
        Node(Some(Edge { label: EPSILON, out: 0 }), Some(Edge { label: EPSILON, out: 3 }))
    );
    assert_eq!(
        *nfa.get_node(2),
        Node(Some(Edge { label: EPSILON, out: 0 }), Some(Edge { label: EPSILON, out: 3 }))
    );
    assert_eq!(*nfa.get_node(3), Node(None, None));
}

#[test]
fn alternation_adds_four_epsilon_edges() {
    let nfa = compile("a|b");
    assert_eq!(nfa.size(), 6);
    assert_eq!(nfa.get_start_node(), 4);
    assert_eq!(nfa.get_accept_node(), 5);
    assert_eq!(
        *nfa.get_node(4),
        Node(Some(Edge { label: EPSILON, out: 0 }), Some(Edge { label: EPSILON, out: 2 }))
    );
    assert_eq!(*nfa.get_node(1), Node(Some(Edge { label: EPSILON, out: 5 }), None));
    assert_eq!(*nfa.get_node(3), Node(Some(Edge { label: EPSILON, out: 5 }), None));
}

#[test]
fn closure_drops_nodes_that_only_pass_on() {
    let nfa = compile("a*");
    // Node 2 has epsilon edges only and node 1 is not reached.
    assert_eq!(nfa.step_epsilon(1 << 2), 0b1001);
    // Node 1 leads back to node 0 and on to the accept node.
    assert_eq!(nfa.step_epsilon(1 << 1), 0b1001);
    // The accept node is kept though it has no edge.
    assert_eq!(nfa.step_epsilon(1 << 3), 0b1000);
    assert_eq!(nfa.step_epsilon(0), 0);
}

#[test]
fn closure_ignores_numbers_that_are_no_nodes() {
    let nfa = compile("a");
    assert_eq!(nfa.step_epsilon(1 << 63), 0);
    assert_eq!(nfa.step_epsilon((1 << 40) | 1), 1);
    assert_eq!(nfa.step(u64::MAX, b'a'), 2);
}

#[test]
fn closure_ends_on_a_cycle_of_epsilon_edges() {
    let nfa = compile("(b*|c*)*|(a*d)");
    let start = nfa.get_start_state();
    assert!(nfa.is_accept_state(start));
    let set = nfa.step(start, b'b');
    assert!(nfa.is_accept_state(set));
    let set = nfa.step(set, b'c');
    assert!(nfa.is_accept_state(set));
    let set = nfa.step(start, b'a');
    assert!(set != 0);
    assert!(!nfa.is_accept_state(set));
    let set = nfa.step(set, b'd');
    assert!(nfa.is_accept_state(set));
    assert_eq!(nfa.step(set, b'd'), 0);
}

#[test]
fn closure_of_a_closure_is_the_closure() {
    let nfa = compile("(b|c)*|(a|d)*");
    for i in 0..nfa.size() {
        let once = nfa.step_epsilon(1 << i);
        assert_eq!(nfa.step_epsilon(once) & once, once);
    }
}

#[test]
fn start_state_is_the_closure_of_the_start_node() {
    let nfa = compile("a*b*c*");
    assert_eq!(nfa.get_start_state(), 2321);
    assert_eq!(nfa.get_start_state(), nfa.step_epsilon(1 << nfa.get_start_node()));
    assert!(nfa.is_accept_state(2321));
    assert!(!nfa.is_accept_state(0));
}

#[test]
fn step_without_edge_is_empty() {
    let nfa = compile("ab");
    let start = nfa.get_start_state();
    assert_eq!(nfa.step(start, b'b'), 0);
    assert_eq!(nfa.step(0, b'a'), 0);
}

#[test]
fn bits_of_a_word() {
    assert_eq!(single_bit(0), 1);
    assert_eq!(single_bit(63), 1 << 63);
    assert_eq!(with_bit(0b100, 0), 0b101);
    assert_eq!(with_bit(0b101, 0), 0b101);
    assert_eq!(without_bit(0b101, 2), 0b001);
    assert_eq!(without_bit(0b001, 2), 0b001);
    assert!(test_bit(0b100, 2));
    assert!(!test_bit(0b100, 1));
    assert!(test_bit(u64::MAX, 63));
    assert_eq!(lowest_bit(0b101000), 3);
    assert_eq!(lowest_bit(1 << 63), 63);
}

#[test]
fn an_edge_fills_the_first_place_when_only_that_is_free() {
    let mut n = Node(None, Some(Edge { label: EPSILON, out: 2 }));
    n.insert_edge(Edge::new(97, 1));
    assert_eq!(n, Node(Some(Edge { label: 97, out: 1 }), Some(Edge { label: 256, out: 2 })));
}

#[test]
fn edges_fill_the_first_free_place() {
    let mut n = Node(None, None);
    n.insert_edge(Edge::new(97, 1));
    assert_eq!(n, Node(Some(Edge { label: 97, out: 1 }), None));
    n.insert_edge(Edge::new(EPSILON, 2));
    assert_eq!(n, Node(Some(Edge { label: 97, out: 1 }), Some(Edge { label: 256, out: 2 })));
}

/// The words of up to `max` bytes over `a`, `b`, `c` in the language of a
/// postfix form, worked out on sets of words.
fn words_of(postfix: &[Op], max: usize) -> BTreeSet<Vec<u8>> {
    let mut stack: Vec<BTreeSet<Vec<u8>>> = Vec::new();
    for op in postfix {
        match op {
            Op::Word(c) => {
                stack.push(BTreeSet::from([vec![*c]]));
            }
            Op::Dupstar => {
                let l = stack.pop().unwrap();
                let mut star = BTreeSet::from([vec![]]);
                loop {
                    let mut more = star.clone();
                    for u in &star {
                        for v in &l {
                            if u.len() + v.len() <= max {
                                more.insert([u.as_slice(), v.as_slice()].concat());
                            }
                        }
                    }
                    if more.len() == star.len() {
                        break;
                    }
                    star = more;
                }
                stack.push(star);
            }
            Op::Alter => {
                let l2 = stack.pop().unwrap();
                let l1 = stack.pop().unwrap();
                stack.push(l1.union(&l2).cloned().collect());
            }
            Op::Concat => {
                let l2 = stack.pop().unwrap();
                let l1 = stack.pop().unwrap();
                let mut joined = BTreeSet::new();
                for u in &l1 {
                    for v in &l2 {
                        if u.len() + v.len() <= max {
                            joined.insert([u.as_slice(), v.as_slice()].concat());
                        }
                    }
                }
                stack.push(joined);
            }
            Op::Leftparen | Op::Rightparen => unreachable!(),
        }
    }
    stack.pop().unwrap()
}

fn all_words(max: usize) -> Vec<Vec<u8>> {
    let mut words: Vec<Vec<u8>> = vec![vec![]];
    let mut from = 0;
    for _ in 0..max {
        let upto = words.len();
        for i in from..upto {
            for c in [b'a', b'b', b'c'] {
                let mut w = words[i].clone();
                w.push(c);
                words.push(w);
            }
        }
        from = upto;
    }
    words
}

#[test]
fn the_automaton_matches_the_language_of_the_pattern() {
    let patterns = [
        "a", "ab", "a|b", "a*", "a*b", "(a|b)*c", "a(b|c)*", "(ab)*", "(a*b*)*", "a*|b*c",
        "(b*|c*)*|(a*b)", "((a|b)(b|c))*a", "a**", "(a|b*)c*",
    ];
    let max = 5;
    for pattern in patterns {
        let regex = Regex::from(&String::from(pattern));
        let language = words_of(regex.get_postfix_form(), max);
        let nfa = Nfa::build_nfa(regex).unwrap();
        for w in all_words(max) {
            let mut set = nfa.get_start_state();
            for c in &w {
                set = nfa.step(set, *c);
            }
            let matched = !w.is_empty() && nfa.is_accept_state(set);
            let expected = !w.is_empty() && language.contains(&w);
            assert_eq!(matched, expected, "{} {:?}", pattern, w);
        }
    }
}
