use trigrep::decompose::{decompose, decompose_tree, literals_to_trigrams, simplify};
use trigrep::plan::{trigram_hash, QueryPlan, TrigramQuery};
use trigrep::syntax::Node;

#[test]
fn test_plain_literal() {
    let plan = decompose("hello", false);
    match plan {
        QueryPlan::And(trigrams) => {
            // "hello" -> "hel", "ell", "llo" = 3 trigrams
            assert_eq!(trigrams.len(), 3);
        }
        _ => panic!("Expected And plan for plain literal"),
    }
}

#[test]
fn test_short_literal() {
    let plan = decompose("ab", false);
    assert!(matches!(plan, QueryPlan::MatchAll));
}

#[test]
fn test_alternation() {
    let plan = decompose("foo|bar", false);
    match plan {
        QueryPlan::Or(branches) => {
            assert_eq!(branches.len(), 2);
        }
        _ => panic!("Expected Or plan for alternation"),
    }
}

#[test]
fn test_dot_star_between_literals() {
    let plan = decompose("foo.*bar", false);
    // Should extract trigrams from "foo" and "bar" in an AND
    match plan {
        QueryPlan::And(trigrams) => {
            assert!(trigrams.len() >= 2); // at least 1 from "foo" + 1 from "bar"
        }
        _ => panic!("Expected And plan, got {:?}", plan),
    }
}

#[test]
fn test_case_insensitive() {
    let plan = decompose("Hello", true);
    match plan {
        QueryPlan::And(trigrams) => {
            // Should produce lowercase trigrams
            let expected = trigram_hash(b'h', b'e', b'l');
            assert_eq!(trigrams[0].hash, expected);
        }
        _ => panic!("Expected And plan"),
    }
}

fn q(a: u8, b: u8, c: u8, next: Option<u8>) -> TrigramQuery {
    TrigramQuery { hash: trigram_hash(a, b, c), expected_next: next }
}

#[test]
fn trigram_hash_packs_three_bytes() {
    assert_eq!(trigram_hash(1, 2, 3), 0x010203);
    assert_eq!(trigram_hash(b'a', b'b', b'c'), 0x616263);
    assert_eq!(trigram_hash(255, 255, 255), 0xffffff);
    assert_eq!(trigram_hash(0, 0, 0), 0);
}

#[test]
fn literal_trigrams_name_the_next_byte() {
    let plan = literals_to_trigrams(b"hello");
    assert_eq!(
        plan,
        QueryPlan::And(vec![
            q(b'h', b'e', b'l', Some(b'l')),
            q(b'e', b'l', b'l', Some(b'o')),
            q(b'l', b'l', b'o', None),
        ])
    );
}

#[test]
fn literal_of_three_bytes_is_one_trigram() {
    assert_eq!(literals_to_trigrams(b"abc"), QueryPlan::And(vec![q(b'a', b'b', b'c', None)]));
    assert_eq!(literals_to_trigrams(b"ab"), QueryPlan::MatchAll);
    assert_eq!(literals_to_trigrams(b""), QueryPlan::MatchAll);
}

#[test]
fn plain_literal_exact_plan() {
    assert_eq!(
        decompose("hello", false),
        QueryPlan::And(vec![
            q(b'h', b'e', b'l', Some(b'l')),
            q(b'e', b'l', b'l', Some(b'o')),
            q(b'l', b'l', b'o', None),
        ])
    );
}

#[test]
fn case_insensitive_lowers_every_literal_byte() {
    assert_eq!(
        decompose("HeLLo", true),
        QueryPlan::And(vec![
            q(b'h', b'e', b'l', Some(b'l')),
            q(b'e', b'l', b'l', Some(b'o')),
            q(b'l', b'l', b'o', None),
        ])
    );
    // Case-sensitive mode keeps the bytes as written.
    assert_eq!(
        decompose("ABC", false),
        QueryPlan::And(vec![q(b'A', b'B', b'C', None)])
    );
}

#[test]
fn unparseable_pattern_constrains_nothing() {
    assert_eq!(decompose("(abc", false), QueryPlan::MatchAll);
    assert_eq!(decompose("abc[", true), QueryPlan::MatchAll);
}

#[test]
fn dot_star_joins_both_literals() {
    assert_eq!(
        decompose("foo.*bar", false),
        QueryPlan::And(vec![q(b'f', b'o', b'o', None), q(b'b', b'a', b'r', None)])
    );
}

#[test]
fn optional_parts_constrain_nothing() {
    assert_eq!(decompose("(foo)?", false), QueryPlan::MatchAll);
    assert_eq!(decompose("a.*", false), QueryPlan::MatchAll);
    assert_eq!(decompose("\\w+", false), QueryPlan::MatchAll);
}

#[test]
fn required_repetition_keeps_its_plan() {
    assert_eq!(
        decompose("(abcd)+", false),
        QueryPlan::And(vec![q(b'a', b'b', b'c', Some(b'd')), q(b'b', b'c', b'd', None)])
    );
}

#[test]
fn alternation_with_short_branch_constrains_nothing() {
    assert_eq!(decompose("foo|ba", false), QueryPlan::MatchAll);
}

#[test]
fn alternation_branches_in_order() {
    assert_eq!(
        decompose("foo|bar", false),
        QueryPlan::Or(vec![
            QueryPlan::And(vec![q(b'f', b'o', b'o', None)]),
            QueryPlan::And(vec![q(b'b', b'a', b'r', None)]),
        ])
    );
}

#[test]
fn alternation_inside_concatenation_keeps_other_parts() {
    // The alternation's plan cannot stand inside the `And`; the other parts
    // of the concatenation are all kept.
    assert_eq!(
        decompose("foo(abc|xyz)qrs", false),
        QueryPlan::And(vec![q(b'f', b'o', b'o', None), q(b'q', b'r', b's', None)])
    );
    assert_eq!(decompose("(def|ghi)abc", false), QueryPlan::And(vec![q(b'a', b'b', b'c', None)]));
    assert_eq!(decompose("abc(def|ghi)", false), QueryPlan::And(vec![q(b'a', b'b', b'c', None)]));
}

#[test]
fn concatenation_of_alternations_keeps_the_first() {
    assert_eq!(
        decompose("(abc|def)(ghi|jkl)", false),
        QueryPlan::Or(vec![
            QueryPlan::And(vec![q(b'a', b'b', b'c', None)]),
            QueryPlan::And(vec![q(b'd', b'e', b'f', None)]),
        ])
    );
}

#[test]
fn tree_decomposition_of_hand_built_tree() {
    let tree = Node::Concat(vec![
        Node::Literal(b"ab".to_vec()),
        Node::Literal(b"c".to_vec()),
        Node::Other,
        Node::Capture(Box::new(Node::Literal(b"xyz".to_vec()))),
    ]);
    assert_eq!(
        decompose_tree(&tree, false),
        QueryPlan::And(vec![q(b'a', b'b', b'c', None), q(b'x', b'y', b'z', None)])
    );
}

#[test]
fn tree_alternation_of_one_branch_is_that_branch() {
    let tree = Node::Alternation(vec![Node::Literal(b"abcd".to_vec())]);
    assert_eq!(
        decompose_tree(&tree, false),
        QueryPlan::And(vec![q(b'a', b'b', b'c', Some(b'd')), q(b'b', b'c', b'd', None)])
    );
    let empty = Node::Concat(vec![]);
    assert_eq!(decompose_tree(&empty, false), QueryPlan::MatchAll);
    let none = Node::Repetition { min: 0, sub: Box::new(Node::Literal(b"abc".to_vec())) };
    assert_eq!(decompose_tree(&none, false), QueryPlan::MatchAll);
}

fn found(line: &[u8], query: &TrigramQuery) -> bool {
    (0..line.len().saturating_sub(2)).any(|i| {
        trigram_hash(line[i], line[i + 1], line[i + 2]) == query.hash
            && match query.expected_next {
                Some(b) => i + 3 < line.len() && line[i + 3] == b,
                None => true,
            }
    })
}

fn holds(plan: &QueryPlan, line: &[u8]) -> bool {
    match plan {
        QueryPlan::MatchAll => true,
        QueryPlan::And(qs) => qs.iter().all(|q| found(line, q)),
        QueryPlan::Or(bs) => bs.iter().any(|b| holds(b, line)),
    }
}

#[test]
fn plan_admits_matching_lines() {
    let cases: [(&str, &str); 9] = [
        ("(def|ghi)abc", "defabc"),
        ("abc(def|ghi)", "abcghi"),
        ("foo(abc|xyz)qrs", "fooxyzqrs"),
        ("(abc|def)(ghi|jkl)", "defjkl"),
        ("foo.*bar", "xx foo yyy bar zz"),
        ("hello", "say hello world"),
        ("foo|bar", "a bar b"),
        ("(abcd)+x", "abcdabcdx"),
        ("[0-9]+abc", "12abc"),
    ];
    for (pattern, line) in cases {
        let plan = decompose(pattern, false);
        assert!(holds(&plan, line.as_bytes()), "{} on {}", pattern, line);
    }
    assert!(!holds(&decompose("hello", false), b"help"));
}

#[test]
fn simplify_removes_top_redundancy() {
    assert_eq!(simplify(QueryPlan::And(vec![])), QueryPlan::MatchAll);
    let one = QueryPlan::Or(vec![QueryPlan::Or(vec![QueryPlan::And(vec![q(1, 2, 3, None)])])]);
    assert_eq!(simplify(one), QueryPlan::And(vec![q(1, 2, 3, None)]));
    let two = QueryPlan::Or(vec![QueryPlan::MatchAll, QueryPlan::And(vec![])]);
    assert_eq!(simplify(two), QueryPlan::Or(vec![QueryPlan::MatchAll, QueryPlan::And(vec![])]));
}
