use spex::builder::spex;
use spex::parser::tokenize;

#[test]
fn test1() {
    let eq = |a: &str, b: &str| spex(a).unwrap().same_language(&spex(b).unwrap()).unwrap();
    assert_eq!(eq("(a+|ab)&!a", "a(a+|b)"), true);
    assert_eq!(eq("(a+|ab)", "a(a+|b)"), false);
    assert_eq!(spex("(a+|ab)").unwrap().includes(&spex("a(a+|b)").unwrap()).unwrap(), true);
    let meet = |a: &str, b: &str| spex(a).unwrap().intersect(&spex(b).unwrap()).unwrap();
    assert_eq!(!meet("[abc]+", "ababca").blank(), true);
    assert_eq!(!meet("(abc)+", "....a|....a.+").blank(), false);
    assert_eq!(!meet("(abc)+", "....b|....b.+").blank(), true);
}

#[test]
fn test_tokenize() {
    assert_eq!(tokenize("[abc]"), vec!["[", "a", "b", "c", "]"]);
    assert_eq!(tokenize("[^abc]"), vec!["[", "^", "a", "b", "c", "]"]);
    assert_eq!(tokenize("[\\[abc]"), vec!["[", "\\[", "a", "b", "c", "]"]);
}
