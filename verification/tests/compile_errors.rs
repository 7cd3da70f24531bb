use nfa_regex::error::CompileError;
use nfa_regex::nfa::Nfa;
use nfa_regex::re::{Op, Regex};
use nfa_regex::thompson::postfix_error;

fn literals(n: usize) -> String {
    "a".repeat(n)
}

#[test]
fn sixty_four_nodes_fit() {
    let nfa = Nfa::new(&literals(32)).unwrap();
    assert_eq!(nfa.size(), 64);
    assert_eq!(nfa.partial_match(&literals(33)), vec![(0, 31)]);
}

#[test]
fn more_than_sixty_four_nodes_is_a_capacity_error() {
    assert!(matches!(Nfa::new(&literals(33)), Err(CompileError::CapacityError)));
    assert!(matches!(Nfa::new(&literals(1000)), Err(CompileError::CapacityError)));
    // 31 literals, one star: 64 nodes.
    assert!(Nfa::new(&format!("{}*", literals(31))).is_ok());
    // 32 literals, one star: 66 nodes.
    assert!(matches!(
        Nfa::new(&format!("{}*", literals(32))),
        Err(CompileError::CapacityError)
    ));
}

#[test]
fn concatenation_takes_no_node() {
    let nfa = Nfa::new(&String::from("abcd")).unwrap();
    assert_eq!(nfa.size(), 8);
    let nfa = Nfa::new(&String::from("a|b")).unwrap();
    assert_eq!(nfa.size(), 6);
    let nfa = Nfa::new(&String::from("(a*)*")).unwrap();
    assert_eq!(nfa.size(), 6);
}

#[test]
fn unmatched_group_is_a_syntax_error() {
    for pattern in [")", "a)", "(a))", "(", "(a", "((a)", "a(b"] {
        assert!(
            matches!(Nfa::new(&String::from(pattern)), Err(CompileError::SyntaxError)),
            "{}",
            pattern
        );
    }
}

#[test]
fn operator_without_operand_is_a_syntax_error() {
    for pattern in ["", "*", "|", "a|", "|a", "a||b", "()", "(|)", "*a"] {
        assert!(
            matches!(Nfa::new(&String::from(pattern)), Err(CompileError::SyntaxError)),
            "{}",
            pattern
        );
    }
}

#[test]
fn syntax_error_comes_before_capacity_error() {
    let pattern = format!("{}|", literals(40));
    assert!(matches!(Nfa::new(&pattern), Err(CompileError::SyntaxError)));
    let pattern = format!("{})", literals(40));
    assert!(matches!(Nfa::new(&pattern), Err(CompileError::SyntaxError)));
}

#[test]
fn postfix_is_judged_before_building() {
    assert_eq!(postfix_error(&vec![Op::Word(b'a')]), None);
    assert_eq!(postfix_error(&vec![]), Some(CompileError::SyntaxError));
    assert_eq!(postfix_error(&vec![Op::Dupstar]), Some(CompileError::SyntaxError));
    assert_eq!(postfix_error(&vec![Op::Word(b'a'), Op::Concat]), Some(CompileError::SyntaxError));
    assert_eq!(
        postfix_error(&vec![Op::Word(b'a'), Op::Word(b'b')]),
        Some(CompileError::SyntaxError)
    );
    assert_eq!(
        postfix_error(&vec![Op::Word(b'a'), Op::Leftparen]),
        Some(CompileError::SyntaxError)
    );
    assert_eq!(
        postfix_error(&vec![Op::Word(b'a'), Op::Rightparen]),
        Some(CompileError::SyntaxError)
    );
    let mut long = vec![Op::Word(b'a')];
    for _ in 0..32 {
        long.push(Op::Dupstar);
    }
    assert_eq!(postfix_error(&long), Some(CompileError::CapacityError));
    long.pop();
    assert_eq!(postfix_error(&long), None);
}

#[test]
fn building_rejects_a_postfix_in_error() {
    let regex = Regex { infix: vec![], postfix: vec![Op::Word(b'a'), Op::Alter] };
    assert!(matches!(Nfa::build_nfa(regex), Err(CompileError::SyntaxError)));
    let regex = Regex { infix: vec![], postfix: vec![] };
    assert!(matches!(Nfa::build_nfa(regex), Err(CompileError::SyntaxError)));
    let regex = Regex { infix: vec![Op::Word(b'a')], postfix: vec![] };
    assert!(matches!(Nfa::build_nfa(regex), Err(CompileError::SyntaxError)));
}

#[test]
fn building_from_a_pattern_read() {
    let nfa = Nfa::build_nfa(Regex::from(&String::from("ab"))).unwrap();
    assert_eq!(nfa.size(), 4);
    assert_eq!(nfa.get_start_node(), 0);
    assert_eq!(nfa.get_accept_node(), 3);
    assert_eq!(nfa.partial_match(&String::from("xabab")), vec![(1, 2), (3, 4)]);
    for pattern in [")", "(a", "a|", "*"] {
        let res = Nfa::build_nfa(Regex::from(&String::from(pattern)));
        assert!(matches!(res, Err(CompileError::SyntaxError)), "{}", pattern);
    }
    let res = Nfa::build_nfa(Regex::from(&"a".repeat(33)));
    assert!(matches!(res, Err(CompileError::CapacityError)));
}

#[test]
fn new_is_tokenize_convert_build() {
    let pattern = String::from("a(b|c)*d");
    let direct = Nfa::new(&pattern).unwrap();
    let staged =
        Nfa::build_nfa(Regex::from(&pattern).build_postfix_form().unwrap()).unwrap();
    assert_eq!(direct.size(), staged.size());
    assert_eq!(direct.get_start_node(), staged.get_start_node());
    assert_eq!(direct.get_accept_node(), staged.get_accept_node());
    for i in 0..direct.size() {
        assert_eq!(direct.get_node(i), staged.get_node(i));
    }
}

#[test]
fn patterns_compile_from_bytes_as_from_strings() {
    let nfa = Nfa::compile(b"a|b").unwrap();
    assert_eq!(nfa.size(), 6);
    assert!(matches!(Nfa::compile(b"a|"), Err(CompileError::SyntaxError)));
    assert!(matches!(Nfa::compile(&[b'a'; 33]), Err(CompileError::CapacityError)));
    assert!(matches!(Nfa::compile(b""), Err(CompileError::SyntaxError)));
}
