use spex::builder::{spex, SpexError};
use spex::chex::Chex;
use spex::parser::{tokenize, ParseError};
use spex::spex::Spex;

fn build(s: &str) -> Spex {
    spex(s).unwrap()
}

fn same(a: &Spex, b: &Spex) -> bool {
    a.same_language(b).unwrap()
}

#[test]
fn equality_of_rewritten_expressions() {
    assert!(same(&build("(a+|ab)&!a"), &build("a(a+|b)")));
}

#[test]
fn inequality_without_the_exclusion() {
    assert!(!same(&build("(a+|ab)"), &build("a(a+|b)")));
}

#[test]
fn containment_of_rewritten_expression() {
    assert!(build("(a+|ab)").includes(&build("a(a+|b)")).unwrap());
    assert!(!build("a(a+|b)").includes(&build("(a+|ab)")).unwrap());
}

#[test]
fn repeated_class_meets_literal() {
    assert!(!build("[abc]+").intersect(&build("ababca")).unwrap().blank());
}

#[test]
fn repeated_word_misses_fifth_a() {
    assert!(build("(abc)+").intersect(&build("....a|....a.+")).unwrap().blank());
}

#[test]
fn repeated_word_meets_fifth_b() {
    assert!(!build("(abc)+").intersect(&build("....b|....b.+")).unwrap().blank());
}

#[test]
fn complement_of_almost_everything_is_a() {
    let m = build("[^a]|..+");
    assert!(same(&m.complement(), &build("a")));
    assert!(same(&m.union(&build("a")).unwrap(), &build(".+")));
}

#[test]
fn idempotence_on_values() {
    let a = build("ab+|c");
    assert!(same(&a.union(&a).unwrap(), &a));
    assert!(same(&a.intersect(&a).unwrap(), &a));
}

#[test]
fn double_complement_on_values() {
    let a = build("a[bc]+");
    assert!(same(&a.complement().complement(), &a));
}

#[test]
fn de_morgan_on_values() {
    let a = build("a+");
    let b = build("[ab]b");
    let left = a.union(&b).unwrap().complement();
    let right = a.complement().intersect(&b.complement()).unwrap();
    assert!(same(&left, &right));
    let left = a.intersect(&b).unwrap().complement();
    let right = a.complement().union(&b.complement()).unwrap();
    assert!(same(&left, &right));
}

#[test]
fn absorption_on_values() {
    let a = build("(ab)+");
    let b = build("a.+");
    assert!(same(&a.union(&a.intersect(&b).unwrap()).unwrap(), &a));
}

#[test]
fn containment_three_ways() {
    let a = build("ab");
    let b = build("a.");
    assert!(b.includes(&a).unwrap());
    assert!(a.intersect(&b.complement()).unwrap().blank());
    assert!(same(&a.union(&b).unwrap(), &b));
    assert!(!a.includes(&b).unwrap());
    assert!(!b.intersect(&a.complement()).unwrap().blank());
}

#[test]
fn concatenation_with_empty_class() {
    assert!(build("[]a").blank());
    assert!(build("a[]").blank());
    assert!(build("[]").blank());
}

#[test]
fn repeat_contains_operand_and_its_square() {
    let p = build("(ab)+");
    assert!(p.includes(&build("ab")).unwrap());
    assert!(p.includes(&build("(ab)+(ab)+")).unwrap());
    assert!(!p.includes(&build("aba")).unwrap());
}

#[test]
fn every_state_partitions_the_characters() {
    let m = build("(a[bc])+&!((ac)+)|a+");
    for s in 0..m.tns_dict.len() {
        for c in ['a', 'b', 'c', 'd', 'z', '\u{3042}'] {
            let hits = m.tns_dict[s]
                .iter()
                .filter(|t| t.chex.include_flg == t.chex.char_set.contains(&c))
                .count();
            assert_eq!(hits, 1);
        }
    }
}

#[test]
fn mermaid_of_one_character() {
    let text = build("a").mermaid();
    let want = "```mermaid\ngraph LR\n    0(( ))\n    1( )\n    2( )\n    style 0 fill:#000,stroke-width:0px\n    style 1 stroke:#dc3545,stroke-width:4px\n    0 -- \"a\" --> 1\n    0 -- \"[^a]\" --> 2\n    1 -- \".\" --> 2\n    2 -- \".\" --> 2\n```";
    assert_eq!(text, want);
}

#[test]
fn parse_errors() {
    let err = |s: &str| match spex(s) {
        Err(SpexError::Parse(e)) => e,
        _ => panic!("expected a parse error for {}", s),
    };
    assert_eq!(err("(a"), ParseError::UnclosedGroup);
    assert_eq!(err("a)"), ParseError::UnopenedGroup);
    assert_eq!(err("[a"), ParseError::UnclosedClass);
    assert_eq!(err("a]"), ParseError::UnopenedClass);
    assert_eq!(err("a!b"), ParseError::Misplaced);
    assert_eq!(err("+a"), ParseError::Misplaced);
    assert_eq!(err(""), ParseError::Blank);
    assert_eq!(err("|a"), ParseError::Blank);
    assert_eq!(err("a&"), ParseError::Blank);
    assert_eq!(err("!"), ParseError::Blank);
    assert_eq!(err("()"), ParseError::Blank);
}

#[test]
fn union_is_left_associative() {
    assert!(same(&build("a|b&b"), &build("b")));
    assert!(same(&build("b&b|a"), &build("[ab]")));
}

#[test]
fn escapes_and_dots() {
    assert!(same(&build("\\("), &build("[\\(]")));
    assert!(same(&build("[a.]"), &build(".")));
    assert!(build("[^a.]").blank());
    assert_eq!(tokenize("\\a"), vec!["\\", "a"]);
    assert_eq!(tokenize("a\\"), vec!["a", "\\\\"]);
    assert_eq!(tokenize("\\\\"), vec!["\\\\"]);
}

#[test]
fn class_algebra() {
    let abc = Chex::new(vec!['a', 'b', 'c', 'a'], true);
    let ab = Chex::new(vec!['b', 'a'], true);
    let not_a = Chex::new(vec!['a'], false);
    assert_eq!(abc.len, 3);
    assert!(abc.includes(&ab));
    assert!(!ab.includes(&abc));
    assert!(!ab.includes(&not_a));
    assert!(not_a.includes(&Chex::new(vec!['b'], true)));
    assert!(Chex::new_blank().includes(&Chex::new_blank()));
    assert!(Chex::new_whole().includes(&not_a));
    assert_eq!(Chex::new_whole().complement().str, "[]");
    assert_eq!(Chex::new_blank().complement().str, ".");
    assert_eq!(Chex::new(vec!['b'], true).str, "b");
    assert!(ab.union(&ab.complement()).whole());
    assert!(ab.intersect(&ab.complement()).blank());
    assert!(abc.intersect(&ab) == ab);
    assert!(!(abc == ab));
}

#[test]
fn repeat_unrolls_once() {
    let a = build("a[bc]");
    let p = build("(a[bc])+");
    let pa = p.concat(&a).unwrap();
    assert!(same(&a.union(&pa).unwrap(), &p));
}

#[test]
fn emptiness_by_search() {
    assert!(build("[]").accepts_nothing());
    assert!(build("a&b").accepts_nothing());
    assert!(!build("a|b").accepts_nothing());
    assert!(build("(abc)+&(....a|....a.+)").accepts_nothing());
}
