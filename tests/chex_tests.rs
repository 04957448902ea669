use spex::chex::Chex;

#[test]
fn blank() {
    let blank = Chex::new_blank();
    assert_eq!("[]", blank.str);
}

#[test]
fn whole() {
    let whole = Chex::new_whole();
    assert_eq!(".", whole.str);
}

#[test]
fn chex() {
    let chex = Chex::new(vec!['a', 'c', 'b'], true);
    assert_eq!("[abc]", chex.str);
}

#[test]
fn invert_chex() {
    let chex = Chex::new(vec!['a', 'c', 'b'], false);
    assert_eq!("[^abc]", chex.str);
}

#[test]
fn not_chex() {
    let chex = Chex::new(vec!['a', 'c', 'b'], true);
    assert_eq!("[^abc]", chex.complement().str);
}

#[test]
fn not_invert_chex() {
    let invert_chex = Chex::new(vec!['a', 'c', 'b'], false);
    assert_eq!("[abc]", invert_chex.complement().str);
}

#[test]
fn intersection_chex() {
    let a = Chex::new(vec!['a', 'c', 'b'], true);
    let b = Chex::new(vec!['a', 'd', 'b'], true);
    assert_eq!("[ab]", a.intersect(&b).str);
}

#[test]
fn union_chex() {
    let a = Chex::new(vec!['a', 'c', 'b'], true);
    let b = Chex::new(vec!['a', 'd'], true);
    assert_eq!("[abcd]", a.union(&b).str);
}

#[test]
fn not_intersection_chex() {
    let a = Chex::new(vec!['a'], false);
    let b = Chex::new(vec!['a', 'd', 'b'], true);
    assert_eq!("[bd]", a.intersect(&b).str);
}

#[test]
fn not_union_chex() {
    let a = Chex::new(vec!['a', 'c', 'b'], false);
    let b = Chex::new(vec!['a', 'd'], true);
    assert_eq!("[^bc]", a.union(&b).str);
}
