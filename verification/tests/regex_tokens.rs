use nfa_regex::error::CompileError;
use nfa_regex::re::{read_token, ConcatDetector, Op, Regex};

#[test]
fn test_1() {
    let s = String::from("a*|b*");
    let regex = Regex::from(&s);
    assert_eq!(
        regex.infix,
        vec![Op::Word(b'a'), Op::Dupstar, Op::Alter, Op::Word(b'b'), Op::Dupstar]
    );
    let regex = regex.build_postfix_form().unwrap();
    assert_eq!(
        regex.postfix,
        vec![Op::Word(b'a'), Op::Dupstar, Op::Word(b'b'), Op::Dupstar, Op::Alter]
    );
}

#[test]
fn test_2() {
    let s = String::from("ab");
    let regex = Regex::from(&s);
    assert_eq!(regex.infix, vec![Op::Word(b'a'), Op::Concat, Op::Word(b'b')]);
    let regex = regex.build_postfix_form().unwrap();
    assert_eq!(regex.postfix, vec![Op::Word(b'a'), Op::Word(b'b'), Op::Concat]);
}

#[test]
fn test_3() {
    let s = String::from("ab(b|c)*d");
    let regex = Regex::from(&s);
    assert_eq!(
        regex.infix,
        vec![
            Op::Word(b'a'),
            Op::Concat,
            Op::Word(b'b'),
            Op::Concat,
            Op::Leftparen,
            Op::Word(b'b'),
            Op::Alter,
            Op::Word(b'c'),
            Op::Rightparen,
            Op::Dupstar,
            Op::Concat,
            Op::Word(b'd')
        ]
    );
    let regex = regex.build_postfix_form().unwrap();
    assert_eq!(
        regex.postfix,
        vec![
            Op::Word(b'a'),
            Op::Word(b'b'),
            Op::Concat,
            Op::Word(b'b'),
            Op::Word(b'c'),
            Op::Alter,
            Op::Dupstar,
            Op::Concat,
            Op::Word(b'd'),
            Op::Concat,
        ]
    );
}

#[test]
fn empty_pattern_has_no_tokens() {
    let regex = Regex::from(&String::new());
    assert!(regex.infix.is_empty());
    assert!(regex.postfix.is_empty());
    let regex = regex.build_postfix_form().unwrap();
    assert!(regex.postfix.is_empty());
}

#[test]
fn default_regex_is_empty() {
    let regex = Regex::default();
    assert!(regex.infix.is_empty());
    assert!(regex.get_postfix_form().is_empty());
}

#[test]
fn reading_gives_the_postfix_form() {
    let regex = Regex::from(&String::from("a*|b*"));
    assert_eq!(
        *regex.get_postfix_form(),
        vec![Op::Word(b'a'), Op::Dupstar, Op::Word(b'b'), Op::Dupstar, Op::Alter]
    );
    let regex = Regex::from(&String::from("a|b"));
    assert_eq!(*regex.get_postfix_form(), vec![Op::Word(b'a'), Op::Word(b'b'), Op::Alter]);
}

#[test]
fn plus_is_a_literal() {
    let regex = Regex::from(&String::from("a+"));
    assert_eq!(regex.infix, vec![Op::Word(b'a'), Op::Concat, Op::Word(b'+')]);
    assert_eq!(
        *regex.get_postfix_form(),
        vec![Op::Word(b'a'), Op::Word(b'+'), Op::Concat]
    );
}

#[test]
fn reading_and_converting_agree() {
    for pattern in ["a", "ab", "a*|b*", "ab(b|c)*d", "((a|b))c", "a+?", "()", "*|"] {
        let read = Regex::from(&String::from(pattern));
        let converted = Regex::from(&String::from(pattern)).build_postfix_form().unwrap();
        assert_eq!(read.infix, converted.infix, "{}", pattern);
        assert_eq!(read.postfix, converted.postfix, "{}", pattern);
        assert_eq!(read.convert_infix().unwrap(), read.postfix, "{}", pattern);
    }
}

#[test]
fn reading_leaves_postfix_empty_where_groups_do_not_match() {
    for pattern in [")", "a)", "(a", "a(b", "(a))"] {
        let regex = Regex::from(&String::from(pattern));
        assert!(!regex.infix.is_empty(), "{}", pattern);
        assert!(regex.get_postfix_form().is_empty(), "{}", pattern);
        assert!(matches!(regex.convert_infix(), Err(CompileError::SyntaxError)), "{}", pattern);
    }
    let regex = Regex::from(&String::from("a)"));
    assert_eq!(regex.infix, vec![Op::Word(b'a'), Op::Rightparen]);
}

#[test]
fn conversion_keeps_the_infix_form() {
    let regex = Regex::from(&String::from("a(b)")).build_postfix_form().unwrap();
    assert_eq!(
        regex.infix,
        vec![Op::Word(b'a'), Op::Concat, Op::Leftparen, Op::Word(b'b'), Op::Rightparen]
    );
    assert_eq!(*regex.get_postfix_form(), vec![Op::Word(b'a'), Op::Word(b'b'), Op::Concat]);
}

#[test]
fn every_byte_is_a_token() {
    assert_eq!(read_token(b'('), Op::Leftparen);
    assert_eq!(read_token(b')'), Op::Rightparen);
    assert_eq!(read_token(b'*'), Op::Dupstar);
    assert_eq!(read_token(b'|'), Op::Alter);
    assert_eq!(read_token(b'+'), Op::Word(b'+'));
    assert_eq!(read_token(b'\\'), Op::Word(b'\\'));
    assert_eq!(read_token(0), Op::Word(0));
    assert_eq!(read_token(255), Op::Word(255));
}

#[test]
fn bytes_beyond_ascii_are_literals() {
    let regex = Regex::from(&String::from("é"));
    assert_eq!(regex.infix, vec![Op::Word(0xc3), Op::Concat, Op::Word(0xa9)]);
}

#[test]
fn no_concat_before_the_first_token() {
    let regex = Regex::from(&String::from("a"));
    assert_eq!(regex.infix, vec![Op::Word(b'a')]);
    let regex = Regex::from(&String::from("(a)"));
    assert_eq!(regex.infix, vec![Op::Leftparen, Op::Word(b'a'), Op::Rightparen]);
}

#[test]
fn no_concat_after_open_group_or_bar() {
    let regex = Regex::from(&String::from("(a|(b))"));
    assert_eq!(
        regex.infix,
        vec![
            Op::Leftparen,
            Op::Word(b'a'),
            Op::Alter,
            Op::Leftparen,
            Op::Word(b'b'),
            Op::Rightparen,
            Op::Rightparen
        ]
    );
}

#[test]
fn concat_after_star_and_closed_group() {
    let regex = Regex::from(&String::from("a*b"));
    assert_eq!(regex.infix, vec![Op::Word(b'a'), Op::Dupstar, Op::Concat, Op::Word(b'b')]);
    let regex = Regex::from(&String::from("(a)(b)c"));
    assert_eq!(
        regex.infix,
        vec![
            Op::Leftparen,
            Op::Word(b'a'),
            Op::Rightparen,
            Op::Concat,
            Op::Leftparen,
            Op::Word(b'b'),
            Op::Rightparen,
            Op::Concat,
            Op::Word(b'c')
        ]
    );
}

#[test]
fn no_concat_before_star_or_close_group() {
    let regex = Regex::from(&String::from("(a)*"));
    assert_eq!(regex.infix, vec![Op::Leftparen, Op::Word(b'a'), Op::Rightparen, Op::Dupstar]);
}

#[test]
fn detector_follows_the_tokens() {
    let mut d = ConcatDetector::new();
    assert!(d.awaits_atom);
    assert!(!d.have_concat(Op::Word(b'a')));
    assert!(!d.awaits_atom);
    assert!(d.have_concat(Op::Word(b'b')));
    assert!(!d.have_concat(Op::Dupstar));
    assert!(d.have_concat(Op::Leftparen));
    assert!(d.awaits_atom);
    assert!(!d.have_concat(Op::Leftparen));
    assert!(!d.have_concat(Op::Word(b'c')));
    assert!(!d.have_concat(Op::Rightparen));
    assert!(!d.awaits_atom);
    assert!(!d.have_concat(Op::Alter));
    assert!(d.awaits_atom);
    assert!(!d.have_concat(Op::Word(b'd')));
}

#[test]
fn ranks_order_the_operators() {
    assert!(Op::Alter.rank() < Op::Concat.rank());
    assert!(Op::Concat.rank() < Op::Dupstar.rank());
    assert!(Op::Leftparen.rank() < Op::Alter.rank());
    assert_eq!(Op::Leftparen.rank(), 0);
    assert_eq!(Op::Rightparen.rank(), 1);
    assert_eq!(Op::Alter.rank(), 2);
    assert_eq!(Op::Concat.rank(), 3);
    assert_eq!(Op::Dupstar.rank(), 4);
    assert_eq!(Op::Word(b'x').rank(), 5);
}

#[test]
fn alternation_binds_loosest() {
    let regex = Regex::from(&String::from("ab|cd*")).build_postfix_form().unwrap();
    assert_eq!(
        regex.postfix,
        vec![
            Op::Word(b'a'),
            Op::Word(b'b'),
            Op::Concat,
            Op::Word(b'c'),
            Op::Word(b'd'),
            Op::Dupstar,
            Op::Concat,
            Op::Alter
        ]
    );
}

#[test]
fn binary_operators_associate_to_the_left() {
    let regex = Regex::from(&String::from("a|b|c")).build_postfix_form().unwrap();
    assert_eq!(
        regex.postfix,
        vec![Op::Word(b'a'), Op::Word(b'b'), Op::Alter, Op::Word(b'c'), Op::Alter]
    );
    let regex = Regex::from(&String::from("abc")).build_postfix_form().unwrap();
    assert_eq!(
        regex.postfix,
        vec![Op::Word(b'a'), Op::Word(b'b'), Op::Concat, Op::Word(b'c'), Op::Concat]
    );
}

#[test]
fn groups_leave_no_token_in_postfix() {
    let regex = Regex::from(&String::from("((a|b))c")).build_postfix_form().unwrap();
    assert_eq!(
        regex.postfix,
        vec![Op::Word(b'a'), Op::Word(b'b'), Op::Alter, Op::Word(b'c'), Op::Concat]
    );
}

#[test]
fn unmatched_close_group_is_a_syntax_error() {
    for pattern in [")", "a)", "a|b)", "(a))", "a*)b"] {
        let res = Regex::from(&String::from(pattern)).build_postfix_form();
        assert!(matches!(res, Err(CompileError::SyntaxError)), "{}", pattern);
    }
}

#[test]
fn unclosed_group_is_a_syntax_error() {
    for pattern in ["(", "(a", "((a)", "a(b", "(a|b", "a*(", "(a)("] {
        let res = Regex::from(&String::from(pattern)).build_postfix_form();
        assert!(matches!(res, Err(CompileError::SyntaxError)), "{}", pattern);
    }
}

#[test]
fn postfix_holds_no_parenthesis() {
    for pattern in ["(a)", "((a|b)*c)", "(a)(b)", "a(b(c(d)))", "()", "(|)"] {
        let regex = Regex::from(&String::from(pattern)).build_postfix_form().unwrap();
        for op in regex.postfix {
            assert!(op != Op::Leftparen && op != Op::Rightparen, "{}", pattern);
        }
    }
}

#[test]
fn tokens_come_from_bytes() {
    let regex = Regex::from_bytes(&[0xff, b'(', 0x80, b')']);
    assert_eq!(
        regex.infix,
        vec![Op::Word(0xff), Op::Concat, Op::Leftparen, Op::Word(0x80), Op::Rightparen]
    );
    assert_eq!(regex.postfix, vec![Op::Word(0xff), Op::Word(0x80), Op::Concat]);
    assert!(Regex::from_bytes(&[]).infix.is_empty());
}
