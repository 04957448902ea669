use vstd::prelude::*;

use crate::chex::Chex;
use crate::closure::{lemma_plus_unfold, plus_lang, subsets, BudgetExceeded, STATE_BUDGET};
use crate::parser::{lemma_parse_no_blank, lemma_parts_no_empty, no_empty, lemma_trees_of, parse, parse_tree, tokenize, tokens_of, tree_of, views, Node, ParseError, Tree};
use crate::spex::Spex;

verus! {

/// Why an expression gave no automaton.
#[derive(Debug, Clone, Copy, PartialEq, Eq, Structural)]
pub enum SpexError {
    Parse(ParseError),
    Budget(BudgetExceeded),
}

/// The character that a token of a class stands for: the token itself, or the
/// character after the backslash of an escape.
pub open spec fn token_char_of(t: Seq<char>) -> char {
    t[t.len() - 1]
}

/// One of the first `n` tokens stands for `x`.
pub open spec fn stands_for(ts: Seq<Seq<char>>, n: int, x: char) -> bool {
    exists|k: int| 0 <= k < n && ts[k].len() > 0 && #[trigger] token_char_of(ts[k]) == x
}

proof fn lemma_stands_for_step(ts: Seq<Seq<char>>, n: int)
    requires
        0 <= n < ts.len(),
    ensures
        forall|x: char| stands_for(ts, n + 1, x) <==> (stands_for(ts, n, x) || (ts[n].len() > 0 && token_char_of(ts[n]) == x)),
{
    assert forall|x: char| stands_for(ts, n + 1, x) <==> (stands_for(ts, n, x) || (ts[n].len() > 0 && token_char_of(ts[n]) == x)) by {
        if stands_for(ts, n + 1, x) {
            let k = choose|k: int| 0 <= k < n + 1 && ts[k].len() > 0 && #[trigger] token_char_of(ts[k]) == x;
            if k < n {
                assert(stands_for(ts, n, x));
            }
        }
        if stands_for(ts, n, x) {
            let k = choose|k: int| 0 <= k < n && ts[k].len() > 0 && #[trigger] token_char_of(ts[k]) == x;
            assert(stands_for(ts, n + 1, x));
        }
        if ts[n].len() > 0 && token_char_of(ts[n]) == x {
            assert(stands_for(ts, n + 1, x));
        }
    }
}

/// The characters that the tokens of a class stand for.
fn token_chars(tokens: &Vec<String>) -> (r: Vec<char>)
    ensures
        forall|x: char| r@.contains(x) <==> stands_for(views(tokens@), tokens@.len() as int, x),
{
    let mut r: Vec<char> = Vec::new();
    let mut i: usize = 0;
    while i < tokens.len()
        invariant
            i <= tokens@.len(),
            forall|x: char| r@.contains(x) <==> stands_for(views(tokens@), i as int, x),
        decreases tokens.len() - i,
    {
        let t = tokens[i].as_str();
        let n = t.unicode_len();
        let ghost old_r = r@;
        proof {
            lemma_stands_for_step(views(tokens@), i as int);
        }
        if n > 0 {
            let c = t.get_char(n - 1);
            assert(c == token_char_of(views(tokens@)[i as int]));
            r.push(c);
            proof {
                assert forall|x: char| #[trigger] r@.contains(x) <==> (old_r.contains(x) || x == c) by {
                    if r@.contains(x) {
                        let k = choose|k: int| 0 <= k < r@.len() && r@[k] == x;
                        if k < old_r.len() {
                            assert(old_r[k] == x);
                        }
                    }
                    if old_r.contains(x) {
                        let k = choose|k: int| 0 <= k < old_r.len() && old_r[k] == x;
                        assert(r@[k] == x);
                    }
                    if x == c {
                        assert(r@[r@.len() - 1] == x);
                    }
                }
            }
        }
        i += 1;
    }
    r
}

/// The strings that a syntax tree denotes.
pub open spec fn tree_accepts(t: Tree, w: Seq<char>) -> bool
    decreases t, 1nat, 0nat, 0nat, 0nat,
{
    match t {
        Tree::IncChex { tokens } => w.len() == 1 && stands_for(tokens, tokens.len() as int, w[0]),
        Tree::ExcChex { tokens } => w.len() == 1 && !stands_for(tokens, tokens.len() as int, w[0]),
        Tree::Or { left, right } => tree_accepts(*left, w) || tree_accepts(*right, w),
        Tree::And { left, right } => tree_accepts(*left, w) && tree_accepts(*right, w),
        Tree::Invert { node } => w.len() > 0 && !tree_accepts(*node, w),
        Tree::Repeat { node } => tree_plus(*node, w),
        Tree::Concat { nodes } => nodes.len() > 0 && trees_upto(t, nodes.len() as int, w),
    }
}

/// For a concatenation node `t`: `w` is a concatenation of strings of its
/// first `k` parts.
pub open spec fn trees_upto(t: Tree, k: int, w: Seq<char>) -> bool
    decreases t, 0nat, k, w.len() + 3, 0nat,
{
    match t {
        Tree::Concat { nodes } => if k <= 0 || k > nodes.len() {
            false
        } else if k == 1 {
            tree_accepts(nodes[0], w)
        } else {
            concat_split(t, k, w, w.len() + 1 as int)
        },
        _ => false,
    }
}

/// Some cut `0 <= c < i` of `w` leaves the first `k - 1` parts of `t` before it
/// and part `k - 1` after it.
pub open spec fn concat_split(t: Tree, k: int, w: Seq<char>, i: int) -> bool
    decreases t, 0nat, k, i + 1, 0nat,
{
    match t {
        Tree::Concat { nodes } => if i <= 0 || i > w.len() + 1 || k <= 1 || k > nodes.len() {
            false
        } else {
            (trees_upto(t, k - 1, w.subrange(0, i - 1)) && tree_accepts(nodes[k - 1], w.subrange(i - 1, w.len() as int)))
                || concat_split(t, k, w, i - 1)
        },
        _ => false,
    }
}

/// One or more strings of `t`, concatenated.
pub open spec fn tree_plus(t: Tree, w: Seq<char>) -> bool
    decreases t, 2nat, w.len() + 1, 1nat, 0nat,
{
    tree_accepts(t, w) || tree_plus_split(t, w, w.len() as int)
}

/// Some cut `0 < c < i` of `w` leaves one or more strings of `t` before it and
/// one after it.
pub open spec fn tree_plus_split(t: Tree, w: Seq<char>, i: int) -> bool
    decreases t, 2nat, w.len() + 1, 0nat, i,
{
    if i <= 1 || i > w.len() {
        false
    } else {
        (tree_plus(t, w.subrange(0, i - 1)) && tree_accepts(t, w.subrange(i - 1, w.len() as int))) || tree_plus_split(t, w, i - 1)
    }
}

/// The cut of `concat_split` as an existential.
proof fn lemma_concat_split(t: Tree, k: int, w: Seq<char>, i: int)
    requires
        t is Concat,
        1 < k <= t->nodes.len(),
        0 <= i <= w.len() + 1,
    ensures
        concat_split(t, k, w, i) <==> exists|c: int| 0 <= c < i && #[trigger] trees_upto(t, k - 1, w.subrange(0, c))
            && tree_accepts(t->nodes[k - 1], w.subrange(c, w.len() as int)),
    decreases i,
{
    if i > 0 {
        lemma_concat_split(t, k, w, i - 1);
        if exists|c: int| 0 <= c < i && #[trigger] trees_upto(t, k - 1, w.subrange(0, c))
            && tree_accepts(t->nodes[k - 1], w.subrange(c, w.len() as int)) {
            let c = choose|c: int| 0 <= c < i && #[trigger] trees_upto(t, k - 1, w.subrange(0, c))
                && tree_accepts(t->nodes[k - 1], w.subrange(c, w.len() as int));
            if c < i - 1 {
                assert(exists|c2: int| 0 <= c2 < i - 1 && #[trigger] trees_upto(t, k - 1, w.subrange(0, c2))
                    && tree_accepts(t->nodes[k - 1], w.subrange(c2, w.len() as int)));
            }
        }
        if concat_split(t, k, w, i - 1) {
            let c = choose|c: int| 0 <= c < i - 1 && #[trigger] trees_upto(t, k - 1, w.subrange(0, c))
                && tree_accepts(t->nodes[k - 1], w.subrange(c, w.len() as int));
            assert(0 <= c < i);
        }
        if trees_upto(t, k - 1, w.subrange(0, i - 1)) && tree_accepts(t->nodes[k - 1], w.subrange(i - 1, w.len() as int)) {
            assert(0 <= i - 1 < i);
        }
    }
}

/// The cut of `tree_plus_split` as an existential.
proof fn lemma_tree_plus_split(t: Tree, w: Seq<char>, i: int)
    requires
        0 <= i <= w.len(),
    ensures
        tree_plus_split(t, w, i) <==> exists|c: int| 0 < c < i && #[trigger] tree_plus(t, w.subrange(0, c))
            && tree_accepts(t, w.subrange(c, w.len() as int)),
    decreases i,
{
    if i > 1 {
        lemma_tree_plus_split(t, w, i - 1);
        if exists|c: int| 0 < c < i && #[trigger] tree_plus(t, w.subrange(0, c)) && tree_accepts(t, w.subrange(c, w.len() as int)) {
            let c = choose|c: int| 0 < c < i && #[trigger] tree_plus(t, w.subrange(0, c)) && tree_accepts(t, w.subrange(c, w.len() as int));
            if c < i - 1 {
                assert(exists|c2: int| 0 < c2 < i - 1 && #[trigger] tree_plus(t, w.subrange(0, c2)) && tree_accepts(t, w.subrange(c2, w.len() as int)));
            }
        }
        if tree_plus_split(t, w, i - 1) {
            let c = choose|c: int| 0 < c < i - 1 && #[trigger] tree_plus(t, w.subrange(0, c)) && tree_accepts(t, w.subrange(c, w.len() as int));
            assert(0 < c < i);
        }
        if tree_plus(t, w.subrange(0, i - 1)) && tree_accepts(t, w.subrange(i - 1, w.len() as int)) {
            assert(0 < i - 1 < i);
        }
    }
}

/// The repetition of an automaton of a tree accepts the repetition of the tree.
proof fn lemma_plus_node(a: &Spex, t: Tree, w: Seq<char>)
    requires
        forall|v: Seq<char>| #[trigger] a.accepts(v) == tree_accepts(t, v),
    ensures
        plus_lang(a, w) == tree_plus(t, w),
    decreases w.len(),
{
    lemma_plus_unfold(a, w);
    lemma_tree_plus_split(t, w, w.len() as int);
    if plus_lang(a, w) && !a.accepts(w) {
        let c = choose|c: int| 0 < c < w.len() && #[trigger] plus_lang(a, w.subrange(0, c)) && a.accepts(w.subrange(c, w.len() as int));
        lemma_plus_node(a, t, w.subrange(0, c));
        assert(tree_plus(t, w.subrange(0, c)) && tree_accepts(t, w.subrange(c, w.len() as int)));
    }
    if tree_plus(t, w) && !tree_accepts(t, w) {
        let c = choose|c: int| 0 < c < w.len() && #[trigger] tree_plus(t, w.subrange(0, c)) && tree_accepts(t, w.subrange(c, w.len() as int));
        lemma_plus_node(a, t, w.subrange(0, c));
        assert(plus_lang(a, w.subrange(0, c)) && a.accepts(w.subrange(c, w.len() as int)));
    }
}

/// A bound on the number of states of the automaton built from `t`.
pub open spec fn size(t: Tree) -> nat
    decreases t, 1nat, 0int,
{
    match t {
        Tree::IncChex { tokens } => 3,
        Tree::ExcChex { tokens } => 3,
        Tree::Or { left, right } => size(*left) * size(*right),
        Tree::And { left, right } => size(*left) * size(*right),
        Tree::Invert { node } => size(*node),
        Tree::Repeat { node } => 2 * subsets(size(*node)),
        Tree::Concat { nodes } => size_upto(t, nodes.len() as int),
    }
}

/// The bound for the concatenation of the first `k` parts of `t`.
pub open spec fn size_upto(t: Tree, k: int) -> nat
    decreases t, 0nat, k,
{
    match t {
        Tree::Concat { nodes } => if k <= 0 || k > nodes.len() {
            1
        } else if k == 1 {
            size(nodes[0])
        } else {
            size_upto(t, k - 1) * subsets(size(nodes[k - 1]))
        },
        _ => 1,
    }
}

/// Every construction that building `t` makes stays within `STATE_BUDGET`.
pub open spec fn fits(t: Tree) -> bool
    decreases t, 1nat, 0int,
{
    match t {
        Tree::Or { left, right } => fits(*left) && fits(*right) && size(*left) * size(*right) <= STATE_BUDGET,
        Tree::And { left, right } => fits(*left) && fits(*right) && size(*left) * size(*right) <= STATE_BUDGET,
        Tree::Invert { node } => fits(*node),
        Tree::Repeat { node } => fits(*node) && 2 * subsets(size(*node)) <= STATE_BUDGET,
        Tree::Concat { nodes } => fits_upto(t, nodes.len() as int),
        _ => true,
    }
}

/// The constructions for the first `k` parts of `t` stay within the budget.
pub open spec fn fits_upto(t: Tree, k: int) -> bool
    decreases t, 0nat, k,
{
    match t {
        Tree::Concat { nodes } => if k <= 0 || k > nodes.len() {
            true
        } else if k == 1 {
            fits(nodes[0])
        } else {
            fits_upto(t, k - 1) && fits(nodes[k - 1]) && size_upto(t, k - 1) * subsets(size(nodes[k - 1])) <= STATE_BUDGET
        },
        _ => true,
    }
}

proof fn lemma_fits_upto(t: Tree, j: int, k: int)
    requires
        t is Concat,
        1 <= j <= k <= t->nodes.len(),
        fits_upto(t, k),
    ensures
        fits_upto(t, j),
        fits(t->nodes[j - 1]),
    decreases k - j,
{
    if j < k {
        lemma_fits_upto(t, j, k - 1);
    }
}

proof fn lemma_mul_mono(a: int, b: int, x: int, y: int)
    requires
        0 <= a <= x,
        0 <= b <= y,
    ensures
        a * b <= x * y,
{
    assert(a * b <= x * y) by (nonlinear_arith)
        requires
            0 <= a <= x,
            0 <= b <= y,
    ;
}

proof fn lemma_subsets_mono(a: nat, b: nat)
    requires
        a <= b,
    ensures
        subsets(a) <= subsets(b),
    decreases b,
{
    if a < b {
        lemma_subsets_mono(a, (b - 1) as nat);
    }
}

/// The automaton of a syntax tree, built from the leaves up.
pub fn build_spex(parsed: &Node) -> (r: Result<Spex, SpexError>)
    ensures
        r matches Ok(m) ==> m.wf() && forall|w: Seq<char>| #[trigger] m.accepts(w) == tree_accepts(tree_of(*parsed), w),
        r matches Ok(m) ==> m.reachable() && m.n() <= size(tree_of(*parsed)),
        r matches Err(SpexError::Parse(e)) ==> e == ParseError::Blank && !no_empty(tree_of(*parsed)),
        r matches Err(SpexError::Budget(b)) ==> b.limit == STATE_BUDGET && !fits(tree_of(*parsed)),
        no_empty(tree_of(*parsed)) && fits(tree_of(*parsed)) ==> r is Ok,
    decreases parsed,
{
    match parsed {
        Node::IncChex { tokens } => Ok(Spex::build_by_chex(&Chex::new(token_chars(tokens), true))),
        Node::ExcChex { tokens } => Ok(Spex::build_by_chex(&Chex::new(token_chars(tokens), false))),
        Node::Or { left, right } => {
            let a = match build_spex(left) {
                Ok(m) => m,
                Err(e) => return Err(e),
            };
            let b = match build_spex(right) {
                Ok(m) => m,
                Err(e) => return Err(e),
            };
            proof {
                lemma_mul_mono(a.n(), b.n(), size(tree_of(**left)) as int, size(tree_of(**right)) as int);
            }
            match a.union(&b) {
                Ok(m) => Ok(m),
                Err(e) => Err(SpexError::Budget(e)),
            }
        },
        Node::And { left, right } => {
            let a = match build_spex(left) {
                Ok(m) => m,
                Err(e) => return Err(e),
            };
            let b = match build_spex(right) {
                Ok(m) => m,
                Err(e) => return Err(e),
            };
            proof {
                lemma_mul_mono(a.n(), b.n(), size(tree_of(**left)) as int, size(tree_of(**right)) as int);
            }
            match a.intersect(&b) {
                Ok(m) => Ok(m),
                Err(e) => Err(SpexError::Budget(e)),
            }
        },
        Node::Invert { node } => {
            match build_spex(node) {
                Ok(m) => Ok(m.complement()),
                Err(e) => Err(e),
            }
        },
        Node::Repeat { node } => {
            let a = match build_spex(node) {
                Ok(m) => m,
                Err(e) => return Err(e),
            };
            proof {
                lemma_subsets_mono(a.n() as nat, size(tree_of(**node)));
            }
            match a.repeat() {
                Ok(m) => {
                    proof {
                        assert forall|w: Seq<char>| #[trigger] m.accepts(w) == tree_accepts(tree_of(*parsed), w) by {
                            lemma_plus_node(&a, tree_of(**node), w);
                        }
                    }
                    Ok(m)
                },
                Err(e) => Err(SpexError::Budget(e)),
            }
        },
        Node::Concat { nodes } => {
            proof {
                lemma_trees_of(*parsed, nodes@.len() as int);
                if nodes@.len() > 0 {
                    lemma_parts_no_empty(tree_of(*parsed), nodes@.len() as int);
                }
            }
            if nodes.len() == 0 {
                return Err(SpexError::Parse(ParseError::Blank));
            }
            let mut acc = match build_spex(&nodes[0]) {
                Ok(m) => m,
                Err(e) => {
                    proof {
                        assert(tree_of(*parsed)->nodes[0] == tree_of(nodes@[0]));
                        if fits(tree_of(*parsed)) {
                            lemma_fits_upto(tree_of(*parsed), 1, nodes@.len() as int);
                        }
                    }
                    return Err(e);
                },
            };
            let mut i: usize = 1;
            let ghost whole = tree_of(*parsed);
            proof {
                lemma_trees_of(*parsed, nodes@.len() as int);
                assert forall|w: Seq<char>| #[trigger] acc.accepts(w) == trees_upto(whole, i as int, w) by {}
                if fits(whole) {
                    lemma_fits_upto(whole, 1, nodes@.len() as int);
                }
            }
            while i < nodes.len()
                invariant
                    1 <= i <= nodes@.len(),
                    acc.wf(),
                    *parsed == (Node::Concat { nodes: *nodes }),
                    whole == tree_of(*parsed),
                    whole->nodes.len() == nodes@.len(),
                    forall|j: int| 0 <= j < nodes@.len() ==> #[trigger] whole->nodes[j] == tree_of(nodes@[j]),
                    no_empty(whole) ==> forall|j: int| 0 <= j < nodes@.len() ==> no_empty(#[trigger] whole->nodes[j]),
                    forall|w: Seq<char>| #[trigger] acc.accepts(w) == trees_upto(whole, i as int, w),
                    acc.reachable(),
                    acc.n() <= size_upto(whole, i as int),
                    fits(whole) ==> fits_upto(whole, i as int),
                    decreases_to!(parsed => nodes),
                decreases nodes@.len() - i,
            {
                proof {
                    assert(decreases_to!(nodes => nodes[i as int]));
                }
                let next = match build_spex(&nodes[i]) {
                    Ok(m) => m,
                    Err(e) => {
                        proof {
                            assert(whole->nodes[i as int] == tree_of(nodes@[i as int]));
                            if fits(whole) {
                                lemma_fits_upto(whole, i + 1, nodes@.len() as int);
                            }
                        }
                        return Err(e);
                    },
                };
                proof {
                    assert(whole->nodes[i as int] == tree_of(nodes@[i as int]));
                    lemma_subsets_mono(next.n() as nat, size(whole->nodes[i as int]));
                    lemma_mul_mono(acc.n(), subsets(next.n() as nat) as int, size_upto(whole, i as int) as int,
                        subsets(size(whole->nodes[i as int])) as int);
                    if fits(whole) {
                        lemma_fits_upto(whole, i + 1, nodes@.len() as int);
                    }
                }
                let joined = match acc.concat(&next) {
                    Ok(m) => m,
                    Err(e) => return Err(SpexError::Budget(e)),
                };
                proof {
                    assert forall|w: Seq<char>| #[trigger] joined.accepts(w) == trees_upto(whole, i + 1, w) by {
                        lemma_concat_split(whole, i + 1, w, w.len() + 1 as int);
                        if joined.accepts(w) {
                            let c = choose|c: int| 0 <= c <= w.len() && acc.accepts(w.subrange(0, c)) && #[trigger] next.accepts(w.subrange(c, w.len() as int));
                            assert(trees_upto(whole, i as int, w.subrange(0, c)));
                        }
                        if trees_upto(whole, i + 1, w) {
                            let c = choose|c: int| 0 <= c < w.len() + 1 && #[trigger] trees_upto(whole, i as int, w.subrange(0, c))
                                && tree_accepts(whole->nodes[i as int], w.subrange(c, w.len() as int));
                            assert(acc.accepts(w.subrange(0, c)));
                            assert(next.accepts(w.subrange(c, w.len() as int)));
                        }
                    }
                }
                acc = joined;
                i += 1;
            }
            Ok(acc)
        },
    }
}

/// The automaton of the expression `spex_str`: it accepts exactly the strings
/// of the tree that the grammar gives for the tokens of the text.
pub fn spex(spex_str: &str) -> (r: Result<Spex, SpexError>)
    ensures
        r matches Ok(m) ==> m.wf() && m.reachable() && parse_tree(tokens_of(spex_str@)) is Ok
            && denotes(&m, parse_tree(tokens_of(spex_str@))->Ok_0),
        parse_tree(tokens_of(spex_str@)) matches Err(e) ==> r == Err::<Spex, SpexError>(SpexError::Parse(e)),
        r matches Err(SpexError::Parse(e)) ==> parse_tree(tokens_of(spex_str@)) == Err::<Tree, ParseError>(e),
        r matches Err(SpexError::Budget(b)) ==> b.limit == STATE_BUDGET && parse_tree(tokens_of(spex_str@)) is Ok
            && !fits(parse_tree(tokens_of(spex_str@))->Ok_0),
        parse_tree(tokens_of(spex_str@)) matches Ok(t) && fits(t) ==> r is Ok,
{
    let tokens = tokenize(spex_str);
    match parse(&tokens) {
        Ok(node) => {
            proof {
                lemma_parse_no_blank(views(tokens@));
            }
            build_spex(&node)
        },
        Err(e) => Err(SpexError::Parse(e)),
    }
}

/// `m` accepts exactly the strings that the tree `t` denotes.
pub open spec fn denotes(m: &Spex, t: Tree) -> bool {
    forall|w: Seq<char>| #[trigger] m.accepts(w) == tree_accepts(t, w)
}

} // verus!
