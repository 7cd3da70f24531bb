use nfa_regex::nfa::Nfa;
use nfa_regex::ranges::{candidate_before, sort_candidates};
use nfa_regex::re::Regex;

fn compile(pattern: &str) -> Nfa {
    Nfa::new(&String::from(pattern)).unwrap()
}

fn search(pattern: &str, text: &str) -> Vec<(usize, usize)> {
    compile(pattern).partial_match(&String::from(text))
}

#[test]
fn test_9() {
    let re = String::from("a*b*c*");
    let regex = Regex::from(&re).build_postfix_form().unwrap();
    let nfa = Nfa::build_nfa(regex).unwrap();
    let content = "dadaabbcadbdcd".to_string();
    let range = nfa.partial_match(&content);
    assert_eq!(range, vec![(1, 1), (3, 7), (8, 8), (10, 10), (12, 12)]);
}

#[test]
fn test_10() {
    let re = String::from("ab*a*");
    let regex = Regex::from(&re).build_postfix_form().unwrap();
    let nfa = Nfa::build_nfa(regex).unwrap();
    let content = "ababababa".to_string();
    let range = nfa.partial_match(&content);
    assert_eq!(range, vec![(0, 2), (4, 6), (8, 8)])
}

#[test]
fn empty_text_has_no_match() {
    for pattern in ["a", "a*", "a|b", "(ab)*c", "a*b*c*", "(b*|c*)*|(a*d)"] {
        assert_eq!(search(pattern, ""), vec![], "{}", pattern);
    }
}

#[test]
fn text_without_match_gives_nothing() {
    assert_eq!(search("abc", "ababab"), vec![]);
    assert_eq!(search("a", "bcd"), vec![]);
}

#[test]
fn searching_twice_gives_the_same() {
    let nfa = compile("a(b|c)*d");
    let text = String::from("xxabcbdyyadzzabcabbd");
    let first = nfa.partial_match(&text);
    let second = nfa.partial_match(&text);
    assert_eq!(first, second);
    assert_eq!(first, vec![(2, 6), (9, 10), (16, 19)]);
    let other = nfa.partial_match(&String::from("ad"));
    assert_eq!(other, vec![(0, 1)]);
    assert_eq!(nfa.partial_match(&text), first);
}

#[test]
fn matches_are_ascending_and_apart() {
    let cases = [
        ("a*b*c*", "dadaabbcadbdcd"),
        ("ab*a*", "ababababa"),
        ("(a|b)*c", "abcabcxcbbbca"),
        ("a(b|c)*d|bc", "abcbcdbcabcd"),
        ("x*", "xxxxyxxyyx"),
    ];
    for (pattern, text) in cases {
        let found = search(pattern, text);
        for r in &found {
            assert!(r.0 <= r.1, "{} {}", pattern, text);
            assert!(r.1 < text.len(), "{} {}", pattern, text);
        }
        for w in found.windows(2) {
            assert!(w[0].1 < w[1].0, "{} {}", pattern, text);
        }
    }
}

#[test]
fn the_longest_match_of_an_origin_is_kept() {
    assert_eq!(search("ab*", "abbbxab"), vec![(0, 3), (5, 6)]);
    assert_eq!(search("x*", "xxxxyxxyyx"), vec![(0, 3), (5, 6), (9, 9)]);
}

#[test]
fn an_older_attempt_hides_the_younger_ones() {
    // The attempt from 0 hits on the last byte only; the one from 1 hits
    // before it, and its range lies inside the longer one.
    assert_eq!(search("abc|b", "abc"), vec![(0, 2)]);
    assert_eq!(search("abcd|bc", "abcd"), vec![(0, 3)]);
    assert_eq!(search("abcd|bc", "abcx"), vec![(1, 2)]);
}

#[test]
fn a_hit_drops_the_attempts_behind_it() {
    // On the second byte the attempt from 0 hits. The attempt from 1 is
    // dropped with it, so "bb" from 1 is never seen.
    assert_eq!(search("ab|bb|a", "abb"), vec![(0, 1)]);
    assert_eq!(search("ab|bbc|a", "abbc"), vec![(0, 1)]);
}

#[test]
fn matches_count_bytes() {
    assert_eq!(search("é", "aéb"), vec![(1, 2)]);
    assert_eq!(search("b", "éb"), vec![(2, 2)]);
}

#[test]
fn whole_text_can_match() {
    assert_eq!(search("(a|b)*", "abba"), vec![(0, 3)]);
    assert_eq!(search("a", "a"), vec![(0, 0)]);
}

#[test]
fn candidates_are_ordered_by_origin_then_longest() {
    assert!(candidate_before((1, 5), (2, 0)));
    assert!(candidate_before((1, 5), (1, 3)));
    assert!(candidate_before((1, 3), (1, 3)));
    assert!(!candidate_before((1, 3), (1, 5)));
    assert!(!candidate_before((2, 9), (1, 0)));
}

#[test]
fn sorting_puts_candidates_in_order() {
    let sorted = sort_candidates(&vec![(3, 3), (1, 1), (3, 7), (0, 2), (3, 4), (1, 9), (0, 2)]);
    assert_eq!(sorted, vec![(0, 2), (0, 2), (1, 9), (1, 1), (3, 7), (3, 4), (3, 3)]);
    assert_eq!(sort_candidates(&vec![]), vec![]);
    assert_eq!(sort_candidates(&vec![(4, 4)]), vec![(4, 4)]);
    let many: Vec<(usize, usize)> = (0..100).rev().map(|i| (i / 3, i)).collect();
    let sorted = sort_candidates(&many);
    assert_eq!(sorted.len(), 100);
    for w in sorted.windows(2) {
        assert!(candidate_before(w[0], w[1]));
    }
}

#[test]
fn overlap_is_resolved_from_left_to_right() {
    let nfa = compile("a");
    let kept = nfa.remove_overlap_range(vec![(3, 3), (1, 1), (3, 7), (3, 4), (8, 8), (5, 9)]);
    assert_eq!(kept, vec![(1, 1), (3, 7), (8, 8)]);
    let kept = nfa.remove_overlap_range(vec![(2, 4), (0, 5), (6, 6), (5, 7)]);
    assert_eq!(kept, vec![(0, 5), (6, 6)]);
    assert_eq!(nfa.remove_overlap_range(vec![]), vec![]);
}

#[test]
fn nothing_is_kept_behind_the_last_place() {
    let nfa = compile("a");
    let kept = nfa.remove_overlap_range(vec![(0, usize::MAX), (5, 6), (usize::MAX, usize::MAX)]);
    assert_eq!(kept, vec![(0, usize::MAX)]);
}

#[test]
fn any_byte_can_be_searched_for() {
    let nfa = Nfa::compile(&[0xff, b'*', 0x00]).unwrap();
    assert_eq!(nfa.search(&[1, 0xff, 0xff, 0, 2, 0, 0xff]), vec![(1, 3), (5, 5)]);
    assert_eq!(nfa.search(&[]), vec![]);
}

#[test]
fn strings_are_searched_as_their_bytes() {
    let nfa = compile("a(b|c)*d");
    let text = "xxabcbdyyadzzabcabbd";
    assert_eq!(nfa.partial_match(&String::from(text)), nfa.search(text.as_bytes()));
}

#[test]
fn reading_a_byte_stops_at_the_first_hit() {
    let nfa = compile("ab|a");
    let start = nfa.get_start_state();
    let (left, hit) = nfa.advance_threads(&vec![(0, start), (1, start)], b'a');
    assert_eq!(hit, Some(0));
    assert_eq!(left, vec![(0, nfa.step(start, b'a'))]);
    let (left, hit) = nfa.advance_threads(&vec![(0, start), (1, start)], b'b');
    assert_eq!(hit, None);
    assert_eq!(left, vec![]);
    let (left, hit) = nfa.advance_threads(&vec![], b'a');
    assert_eq!(hit, None);
    assert_eq!(left, vec![]);
}

#[test]
fn reading_a_byte_keeps_attempts_before_the_hit() {
    let nfa = compile("abc|bc");
    let start = nfa.get_start_state();
    let after_a = nfa.step(start, b'a');
    let after_ab = nfa.step(after_a, b'b');
    let after_b = nfa.step(start, b'b');
    // The older attempt has read "ab", the younger "b"; neither hit yet.
    let state = vec![(0, after_ab), (1, after_b), (2, start)];
    let (left, hit) = nfa.advance_threads(&state, b'c');
    assert_eq!(hit, Some(0));
    assert_eq!(left, vec![(0, nfa.step(after_ab, b'c'))]);
    // Without the older attempt the younger one hits.
    let (left, hit) = nfa.advance_threads(&vec![(1, after_b), (2, start)], b'c');
    assert_eq!(hit, Some(1));
    assert_eq!(left, vec![(1, nfa.step(after_b, b'c'))]);
    // A byte that only the youngest can read leaves it alone.
    let (left, hit) = nfa.advance_threads(&state, b'a');
    assert_eq!(hit, None);
    assert_eq!(left, vec![(2, after_a)]);
}
