use vstd::prelude::*;

use crate::token::{escapable_chars, token_char, Token};
use crate::text::push_char;

verus! {

/// The string of one character.
fn string1(c: char) -> (r: String)
    ensures
        r@ == seq![c],
{
    let mut r = String::new();
    push_char(&mut r, c);
    assert(r@ =~= seq![c]);
    r
}

/// The string of two characters.
fn string2(c: char, d: char) -> (r: String)
    ensures
        r@ == seq![c, d],
{
    let mut r = String::new();
    push_char(&mut r, c);
    push_char(&mut r, d);
    assert(r@ =~= seq![c, d]);
    r
}

/// The tokens of the text `s`: one per character, but a backslash and the
/// character after it make one token when that character is a backslash or a
/// metacharacter; before any other character the backslash stands alone, and
/// at the end it stands for itself doubled.
pub open spec fn tokens_of(s: Seq<char>) -> Seq<Seq<char>>
    decreases s.len(),
{
    let esc = token_char(Token::ESC);
    if s.len() == 0 {
        Seq::empty()
    } else if s[0] != esc {
        seq![seq![s[0]]] + tokens_of(s.drop_first())
    } else if s.len() == 1 {
        seq![seq![esc, esc]]
    } else if s[1] == esc || escapable_chars().contains(s[1]) {
        seq![seq![esc, s[1]]] + tokens_of(s.subrange(2, s.len() as int))
    } else {
        seq![seq![esc], seq![s[1]]] + tokens_of(s.subrange(2, s.len() as int))
    }
}

/// The views of a list of strings.
pub open spec fn views(ts: Seq<String>) -> Seq<Seq<char>> {
    ts.map_values(|t: String| t@)
}

fn is_escapable(c: char) -> (r: bool)
    ensures
        r == escapable_chars().contains(c),
{
    let es = Token::escapes();
    let mut i: usize = 0;
    while i < 10
        invariant
            i <= 10,
            es@ == escapable_chars(),
            forall|k: int| 0 <= k < i ==> es@[k] != c,
        decreases 10 - i,
    {
        if es[i] == c {
            assert(es@[i as int] == c);
            return true;
        }
        i += 1;
    }
    false
}

/// Splits the text of an expression into tokens.
pub fn tokenize(input_str: &str) -> (r: Vec<String>)
    ensures
        views(r@) == tokens_of(input_str@),
{
    let n = input_str.unicode_len();
    let ghost s = input_str@;
    let esc = Token::ESC.value();
    let mut ret: Vec<String> = Vec::new();
    let mut i: usize = 0;
    assert(s.subrange(0, n as int) =~= s);
    assert(views(ret@) =~= Seq::<Seq<char>>::empty());
    assert(views(ret@) + tokens_of(s) =~= tokens_of(s));
    while i < n
        invariant
            n == s.len(),
            s == input_str@,
            esc == token_char(Token::ESC),
            i <= n,
            views(ret@) + tokens_of(s.subrange(i as int, n as int)) == tokens_of(s),
        decreases n - i,
    {
        let ghost rest = s.subrange(i as int, n as int);
        let ghost before = ret@;
        let c = input_str.get_char(i);
        if c != esc {
            ret.push(string1(c));
            proof {
                assert(rest.drop_first() =~= s.subrange(i + 1, n as int));
                assert(views(ret@) =~= views(before) + seq![seq![c]]);
            }
            i += 1;
        } else if i + 1 == n {
            ret.push(string2(esc, esc));
            proof {
                assert(views(ret@) =~= views(before) + seq![seq![esc, esc]]);
                assert(s.subrange(n as int, n as int) =~= Seq::<char>::empty());
            }
            i += 1;
        } else {
            let d = input_str.get_char(i + 1);
            proof {
                assert(rest[1] == d);
                assert(rest.subrange(2, rest.len() as int) =~= s.subrange(i + 2, n as int));
            }
            if d == esc || is_escapable(d) {
                ret.push(string2(esc, d));
                proof {
                    assert(views(ret@) =~= views(before) + seq![seq![esc, d]]);
                }
            } else {
                ret.push(string1(esc));
                ret.push(string1(d));
                proof {
                    assert(views(ret@) =~= views(before) + seq![seq![esc], seq![d]]);
                }
            }
            i += 2;
        }
    }
    proof {
        assert(s.subrange(n as int, n as int) =~= Seq::<char>::empty());
        assert(views(ret@) + Seq::<Seq<char>>::empty() =~= views(ret@));
    }
    ret
}

/// The syntax tree of an expression.
pub enum Node {
    And { left: Box<Node>, right: Box<Node> },
    Or { left: Box<Node>, right: Box<Node> },
    IncChex { tokens: Vec<String> },
    ExcChex { tokens: Vec<String> },
    Invert { node: Box<Node> },
    Repeat { node: Box<Node> },
    Concat { nodes: Vec<Node> },
}

/// The shape of a syntax tree, with the texts of its tokens.
pub enum Tree {
    And { left: Box<Tree>, right: Box<Tree> },
    Or { left: Box<Tree>, right: Box<Tree> },
    IncChex { tokens: Seq<Seq<char>> },
    ExcChex { tokens: Seq<Seq<char>> },
    Invert { node: Box<Tree> },
    Repeat { node: Box<Tree> },
    Concat { nodes: Seq<Tree> },
}

/// The shape of a syntax tree.
pub open spec fn tree_of(n: Node) -> Tree
    decreases n, 1nat, 0nat,
{
    match n {
        Node::And { left, right } => Tree::And { left: Box::new(tree_of(*left)), right: Box::new(tree_of(*right)) },
        Node::Or { left, right } => Tree::Or { left: Box::new(tree_of(*left)), right: Box::new(tree_of(*right)) },
        Node::IncChex { tokens } => Tree::IncChex { tokens: views(tokens@) },
        Node::ExcChex { tokens } => Tree::ExcChex { tokens: views(tokens@) },
        Node::Invert { node } => Tree::Invert { node: Box::new(tree_of(*node)) },
        Node::Repeat { node } => Tree::Repeat { node: Box::new(tree_of(*node)) },
        Node::Concat { nodes } => Tree::Concat { nodes: trees_of(n, nodes@.len() as int) },
    }
}

/// The shapes of the first `k` parts of a concatenation node.
pub open spec fn trees_of(n: Node, k: int) -> Seq<Tree>
    decreases n, 0nat, k,
{
    match n {
        Node::Concat { nodes } => if k <= 0 || k > nodes@.len() {
            Seq::empty()
        } else {
            trees_of(n, k - 1).push(tree_of(nodes@[k - 1]))
        },
        _ => Seq::empty(),
    }
}

/// The parts of a concatenation node, one by one.
pub proof fn lemma_trees_of(n: Node, k: int)
    requires
        n is Concat,
        0 <= k <= n->nodes@.len(),
    ensures
        trees_of(n, k).len() == k,
        forall|j: int| 0 <= j < k ==> #[trigger] trees_of(n, k)[j] == tree_of(n->nodes@[j]),
    decreases k,
{
    if k > 0 {
        lemma_trees_of(n, k - 1);
    }
}

/// What is wrong with the text of an expression.
#[derive(Debug, Clone, Copy, PartialEq, Eq, Structural)]
pub enum ParseError {
    /// a `(` without its `)`
    UnclosedGroup,
    /// a `)` without its `(`
    UnopenedGroup,
    /// a `[` without its `]`
    UnclosedClass,
    /// a `]` without its `[`
    UnopenedClass,
    /// a `(`, `[`, `!` or `+` where none may stand
    Misplaced,
    /// an operand is missing
    Blank,
}

/// The token is the one character `c`.
fn is_tok(t: &String, c: char) -> (r: bool)
    ensures
        r == (t@ == seq![c]),
{
    let s = t.as_str();
    if s.unicode_len() != 1 {
        return false;
    }
    let r = s.get_char(0) == c;
    proof {
        if r {
            assert(t@ =~= seq![c]);
        }
    }
    r
}

/// Copies of the tokens `lo .. hi`.
fn slice_tokens(tokens: &Vec<String>, lo: usize, hi: usize) -> (r: Vec<String>)
    requires
        lo <= hi <= tokens@.len(),
    ensures
        tokens_match(r@, tokens@, lo as int, hi as int),
{
    let mut r: Vec<String> = Vec::new();
    let mut i: usize = lo;
    while i < hi
        invariant
            lo <= i <= hi <= tokens@.len(),
            tokens_match(r@, tokens@, lo as int, i as int),
        decreases hi - i,
    {
        r.push(tokens[i].clone());
        i += 1;
    }
    r
}

/// `ts` holds the texts of the tokens `lo .. hi` of `src`.
pub open spec fn tokens_match(ts: Seq<String>, src: Seq<String>, lo: int, hi: int) -> bool {
    &&& ts.len() == hi - lo
    &&& forall|k: int| 0 <= k < ts.len() ==> (#[trigger] ts[k])@ == src[lo + k]@
}

/// The tokens `lo .. hi` hold the token `c`.
fn holds_tok(tokens: &Vec<String>, lo: usize, hi: usize, c: char) -> (r: bool)
    requires
        lo <= hi <= tokens@.len(),
    ensures
        r == exists|k: int| lo <= k < hi && #[trigger] is_t(views(tokens@)[k], c),
{
    let mut i: usize = lo;
    while i < hi
        invariant
            lo <= i <= hi <= tokens@.len(),
            forall|k: int| lo <= k < i ==> !#[trigger] is_t(views(tokens@)[k], c),
        decreases hi - i,
    {
        if is_tok(&tokens[i], c) {
            assert(is_t(views(tokens@)[i as int], c));
            return true;
        }
        i += 1;
    }
    false
}

/// The texts of copied tokens are those of the range they were copied from.
proof fn lemma_views_slice(r: Seq<String>, src: Seq<String>, lo: int, hi: int)
    requires
        0 <= lo <= hi <= src.len(),
        tokens_match(r, src, lo, hi),
    ensures
        views(r) == views(src).subrange(lo, hi),
{
    assert(views(r) =~= views(src).subrange(lo, hi));
}

pub fn get_and_node(left: Node, right: Node) -> (r: Node)
    ensures
        r == (Node::And { left: Box::new(left), right: Box::new(right) }),
{
    Node::And { left: Box::new(left), right: Box::new(right) }
}

pub fn get_or_node(left: Node, right: Node) -> (r: Node)
    ensures
        r == (Node::Or { left: Box::new(left), right: Box::new(right) }),
{
    Node::Or { left: Box::new(left), right: Box::new(right) }
}

pub fn get_concat_node(nodes: Vec<Node>) -> (r: Node)
    ensures
        r == (Node::Concat { nodes }),
{
    Node::Concat { nodes }
}

pub fn get_invert_node(node: Node) -> (r: Node)
    ensures
        r == (Node::Invert { node: Box::new(node) }),
{
    Node::Invert { node: Box::new(node) }
}

pub fn get_repeat_node(node: Node) -> (r: Node)
    ensures
        r == (Node::Repeat { node: Box::new(node) }),
{
    Node::Repeat { node: Box::new(node) }
}

pub fn get_inc_chex(tokens: Vec<String>) -> (r: Node)
    ensures
        r == (Node::IncChex { tokens }),
{
    Node::IncChex { tokens }
}

pub fn get_exc_chex(tokens: Vec<String>) -> (r: Node)
    ensures
        r == (Node::ExcChex { tokens }),
{
    Node::ExcChex { tokens }
}

/// The token is the one character `c`.
pub open spec fn is_t(t: Seq<char>, c: char) -> bool {
    t == seq![c]
}

/// The class of the tokens `lo .. hi`; a listed `.` stands for every character.
pub open spec fn inc_tree(ts: Seq<Seq<char>>, lo: int, hi: int) -> Tree {
    if exists|k: int| lo <= k < hi && #[trigger] is_t(ts[k], token_char(Token::WHOL)) {
        Tree::ExcChex { tokens: Seq::empty() }
    } else {
        Tree::IncChex { tokens: ts.subrange(lo, hi) }
    }
}

/// Every character but those of the tokens `lo .. hi`; a listed `.` leaves none.
pub open spec fn exc_tree(ts: Seq<Seq<char>>, lo: int, hi: int) -> Tree {
    if exists|k: int| lo <= k < hi && #[trigger] is_t(ts[k], token_char(Token::WHOL)) {
        Tree::IncChex { tokens: Seq::empty() }
    } else {
        Tree::ExcChex { tokens: ts.subrange(lo, hi) }
    }
}

/// The body `lo .. hi` of a bracketed class, negated when it opens with `^`.
pub open spec fn chex_tree(ts: Seq<Seq<char>>, lo: int, hi: int) -> Tree {
    if lo < hi && is_t(ts[lo], token_char(Token::DENY)) {
        exc_tree(ts, lo + 1, hi)
    } else {
        inc_tree(ts, lo, hi)
    }
}

/// Scans `i .. hi` at group depth `level`: the last `&` or `|` outside every
/// group, or the error of an unbalanced `(` or `)`.
pub open spec fn scan_ops(ts: Seq<Seq<char>>, i: int, hi: int, level: int, split: Option<int>) -> Result<Option<int>, ParseError>
    decreases hi - i,
{
    if i >= hi {
        if level != 0 {
            Err(ParseError::UnclosedGroup)
        } else {
            Ok(split)
        }
    } else if is_t(ts[i], token_char(Token::SP_S)) {
        scan_ops(ts, i + 1, hi, level + 1, split)
    } else if is_t(ts[i], token_char(Token::SP_E)) {
        if level == 0 {
            Err(ParseError::UnopenedGroup)
        } else {
            scan_ops(ts, i + 1, hi, level - 1, split)
        }
    } else if level == 0 && (is_t(ts[i], token_char(Token::AND)) || is_t(ts[i], token_char(Token::OR))) {
        scan_ops(ts, i + 1, hi, level, Some(i))
    } else {
        scan_ops(ts, i + 1, hi, level, split)
    }
}

/// The `)` at which a group, `level` deep at `i`, closes.
pub open spec fn group_end(ts: Seq<Seq<char>>, i: int, hi: int, level: int) -> Option<int>
    decreases hi - i,
{
    if i >= hi {
        None
    } else if is_t(ts[i], token_char(Token::SP_S)) {
        group_end(ts, i + 1, hi, level + 1)
    } else if is_t(ts[i], token_char(Token::SP_E)) {
        if level == 1 {
            Some(i)
        } else {
            group_end(ts, i + 1, hi, level - 1)
        }
    } else {
        group_end(ts, i + 1, hi, level)
    }
}

/// The `]` that closes a class whose body starts at `i`.
pub open spec fn class_end(ts: Seq<Seq<char>>, i: int, hi: int) -> Result<int, ParseError>
    decreases hi - i,
{
    if i >= hi {
        Err(ParseError::UnclosedClass)
    } else if is_t(ts[i], token_char(Token::CH_E)) {
        Ok(i)
    } else if is_t(ts[i], token_char(Token::SP_S)) || is_t(ts[i], token_char(Token::CH_S)) || is_t(ts[i], token_char(Token::INVT))
        || is_t(ts[i], token_char(Token::REPT)) || is_t(ts[i], token_char(Token::SP_E)) {
        Err(ParseError::Misplaced)
    } else {
        class_end(ts, i + 1, hi)
    }
}

/// The grammar: unions and intersections of the tokens `lo .. hi`, split at
/// the last `&` or `|` outside every group.
pub open spec fn and_or_tree(ts: Seq<Seq<char>>, lo: int, hi: int) -> Result<Tree, ParseError>
    decreases hi - lo, 4nat,
{
    match scan_ops(ts, lo, hi, 0, None) {
        Err(e) => Err(e),
        Ok(Some(k)) => if lo <= k < hi {
            match and_or_tree(ts, lo, k) {
                Err(e) => Err(e),
                Ok(l) => match invert_tree(ts, k + 1, hi) {
                    Err(e) => Err(e),
                    Ok(r) => if is_t(ts[k], token_char(Token::AND)) {
                        Ok(Tree::And { left: Box::new(l), right: Box::new(r) })
                    } else {
                        Ok(Tree::Or { left: Box::new(l), right: Box::new(r) })
                    },
                },
            }
        } else {
            Err(ParseError::Blank)
        },
        Ok(None) => invert_tree(ts, lo, hi),
    }
}

/// The grammar: a complement when the tokens `lo .. hi` open with `!`.
pub open spec fn invert_tree(ts: Seq<Seq<char>>, lo: int, hi: int) -> Result<Tree, ParseError>
    decreases hi - lo, 3nat,
{
    if lo >= hi {
        Err(ParseError::Blank)
    } else if is_t(ts[lo], token_char(Token::INVT)) {
        match concat_tree(ts, lo + 1, hi) {
            Err(e) => Err(e),
            Ok(t) => Ok(Tree::Invert { node: Box::new(t) }),
        }
    } else {
        concat_tree(ts, lo, hi)
    }
}

/// The grammar: the atoms of `lo .. hi` in order, one alone, two or more as a
/// concatenation.
pub open spec fn concat_tree(ts: Seq<Seq<char>>, lo: int, hi: int) -> Result<Tree, ParseError>
    decreases hi - lo, 2nat,
{
    match atoms_tree(ts, lo, hi) {
        Err(e) => Err(e),
        Ok(s) => if s.len() == 0 {
            Err(ParseError::Blank)
        } else if s.len() == 1 {
            Ok(s[0])
        } else {
            Ok(Tree::Concat { nodes: s })
        },
    }
}

/// The grammar: the atoms from `i` to `hi`.
pub open spec fn atoms_tree(ts: Seq<Seq<char>>, i: int, hi: int) -> Result<Seq<Tree>, ParseError>
    decreases hi - i, 1nat,
{
    if i >= hi {
        Ok(Seq::empty())
    } else {
        match atom_tree(ts, i, hi) {
            Err(e) => Err(e),
            Ok((t, j)) => if i < j <= hi {
                match atoms_tree(ts, j, hi) {
                    Err(e) => Err(e),
                    Ok(rest) => Ok(seq![t] + rest),
                }
            } else {
                Err(ParseError::Blank)
            },
        }
    }
}

/// The grammar: the atom at `i`, a group, a bracketed class or one character,
/// maybe followed by `+`; and where the next atom starts.
pub open spec fn atom_tree(ts: Seq<Seq<char>>, i: int, hi: int) -> Result<(Tree, int), ParseError>
    decreases hi - i, 0nat,
{
    if i >= hi {
        Err(ParseError::Blank)
    } else if is_t(ts[i], token_char(Token::INVT)) || is_t(ts[i], token_char(Token::REPT)) {
        Err(ParseError::Misplaced)
    } else if is_t(ts[i], token_char(Token::SP_E)) {
        Err(ParseError::UnopenedGroup)
    } else if is_t(ts[i], token_char(Token::CH_E)) {
        Err(ParseError::UnopenedClass)
    } else {
        let base: Result<(Tree, int), ParseError> = if is_t(ts[i], token_char(Token::SP_S)) {
            match group_end(ts, i + 1, hi, 1) {
                None => Err(ParseError::UnclosedGroup),
                Some(j) => if i + 1 <= j < hi {
                    match and_or_tree(ts, i + 1, j) {
                        Err(e) => Err(e),
                        Ok(t) => Ok((t, j + 1)),
                    }
                } else {
                    Err(ParseError::UnclosedGroup)
                },
            }
        } else if is_t(ts[i], token_char(Token::CH_S)) {
            match class_end(ts, i + 1, hi) {
                Err(e) => Err(e),
                Ok(j) => Ok((chex_tree(ts, i + 1, j), j + 1)),
            }
        } else {
            Ok((inc_tree(ts, i, i + 1), i + 1))
        };
        match base {
            Err(e) => Err(e),
            Ok((t, j)) => if 0 <= j < hi && is_t(ts[j], token_char(Token::REPT)) {
                Ok((Tree::Repeat { node: Box::new(t) }, j + 1))
            } else {
                Ok((t, j))
            },
        }
    }
}

/// The tree of a whole list of tokens.
pub open spec fn parse_tree(ts: Seq<Seq<char>>) -> Result<Tree, ParseError> {
    and_or_tree(ts, 0, ts.len() as int)
}

/// An executable result agrees with the grammar's.
pub open spec fn agrees(r: Result<Node, ParseError>, g: Result<Tree, ParseError>) -> bool {
    match r {
        Ok(n) => g == Ok::<Tree, ParseError>(tree_of(n)),
        Err(e) => g == Err::<Tree, ParseError>(e),
    }
}

/// The class of the tokens `lo .. hi`.
pub fn parse_inc_chex(tokens: &Vec<String>, lo: usize, hi: usize) -> (r: Node)
    requires
        lo <= hi <= tokens@.len(),
    ensures
        tree_of(r) == inc_tree(views(tokens@), lo as int, hi as int),
{
    if holds_tok(tokens, lo, hi, Token::WHOL.value()) {
        let none: Vec<String> = Vec::new();
        assert(views(none@) =~= Seq::<Seq<char>>::empty());
        get_exc_chex(none)
    } else {
        let sl = slice_tokens(tokens, lo, hi);
        proof {
            lemma_views_slice(sl@, tokens@, lo as int, hi as int);
        }
        get_inc_chex(sl)
    }
}

/// Every character but those of the tokens `lo .. hi`.
pub fn parse_exc_chex(tokens: &Vec<String>, lo: usize, hi: usize) -> (r: Node)
    requires
        lo <= hi <= tokens@.len(),
    ensures
        tree_of(r) == exc_tree(views(tokens@), lo as int, hi as int),
{
    if holds_tok(tokens, lo, hi, Token::WHOL.value()) {
        let none: Vec<String> = Vec::new();
        assert(views(none@) =~= Seq::<Seq<char>>::empty());
        get_inc_chex(none)
    } else {
        let sl = slice_tokens(tokens, lo, hi);
        proof {
            lemma_views_slice(sl@, tokens@, lo as int, hi as int);
        }
        get_exc_chex(sl)
    }
}

/// The body `lo .. hi` of a bracketed class, negated when it opens with `^`.
pub fn parse_chex(tokens: &Vec<String>, lo: usize, hi: usize) -> (r: Node)
    requires
        lo <= hi <= tokens@.len(),
    ensures
        tree_of(r) == chex_tree(views(tokens@), lo as int, hi as int),
{
    if lo < hi && is_tok(&tokens[lo], Token::DENY.value()) {
        parse_exc_chex(tokens, lo + 1, hi)
    } else {
        parse_inc_chex(tokens, lo, hi)
    }
}

/// The `)` that closes a group opened just before `lo`.
fn close_group(tokens: &Vec<String>, lo: usize, hi: usize) -> (r: Option<usize>)
    requires
        0 < lo <= hi <= tokens@.len(),
    ensures
        r matches Some(j) ==> lo <= j < hi,
        match r {
            Some(j) => group_end(views(tokens@), lo as int, hi as int, 1) == Some(j as int),
            None => group_end(views(tokens@), lo as int, hi as int, 1) is None,
        },
{
    let ghost tv = views(tokens@);
    let mut level: usize = 1;
    let mut i: usize = lo;
    while i < hi
        invariant
            0 < lo <= i <= hi <= tokens@.len(),
            tv == views(tokens@),
            1 <= level <= i - lo + 1,
            group_end(tv, lo as int, hi as int, 1) == group_end(tv, i as int, hi as int, level as int),
        decreases hi - i,
    {
        if is_tok(&tokens[i], Token::SP_S.value()) {
            level += 1;
        } else if is_tok(&tokens[i], Token::SP_E.value()) {
            if level == 1 {
                return Some(i);
            }
            level -= 1;
        }
        i += 1;
    }
    None
}

/// The `]` that closes a class opened just before `lo`.
fn close_class(tokens: &Vec<String>, lo: usize, hi: usize) -> (r: Result<usize, ParseError>)
    requires
        lo <= hi <= tokens@.len(),
    ensures
        r matches Ok(j) ==> lo <= j < hi,
        match r {
            Ok(j) => class_end(views(tokens@), lo as int, hi as int) == Ok::<int, ParseError>(j as int),
            Err(e) => class_end(views(tokens@), lo as int, hi as int) == Err::<int, ParseError>(e),
        },
{
    let ghost tv = views(tokens@);
    let mut i: usize = lo;
    while i < hi
        invariant
            lo <= i <= hi <= tokens@.len(),
            tv == views(tokens@),
            class_end(tv, lo as int, hi as int) == class_end(tv, i as int, hi as int),
        decreases hi - i,
    {
        let t = &tokens[i];
        if is_tok(t, Token::CH_E.value()) {
            return Ok(i);
        }
        if is_tok(t, Token::SP_S.value()) || is_tok(t, Token::CH_S.value()) || is_tok(t, Token::INVT.value())
            || is_tok(t, Token::REPT.value()) || is_tok(t, Token::SP_E.value()) {
            return Err(ParseError::Misplaced);
        }
        i += 1;
    }
    Err(ParseError::UnclosedClass)
}

/// Parses a whole list of tokens.
pub fn parse(tokens: &Vec<String>) -> (r: Result<Node, ParseError>)
    ensures
        agrees(r, parse_tree(views(tokens@))),
{
    parse_and_or(tokens, 0, tokens.len())
}

/// Unions and intersections, left-associative: the last `&` or `|` outside
/// every group splits the tokens `lo .. hi`.
pub fn parse_and_or(tokens: &Vec<String>, lo: usize, hi: usize) -> (r: Result<Node, ParseError>)
    requires
        lo <= hi <= tokens@.len(),
    ensures
        agrees(r, and_or_tree(views(tokens@), lo as int, hi as int)),
    decreases hi - lo, 4nat,
{
    let ghost tv = views(tokens@);
    let mut level: usize = 0;
    let mut split: Option<usize> = None;
    let ghost mut gsplit: Option<int> = None;
    let mut i: usize = lo;
    while i < hi
        invariant
            lo <= i <= hi <= tokens@.len(),
            tv == views(tokens@),
            level <= i - lo,
            split matches Some(k) ==> lo <= k < i,
            gsplit == (match split { Some(k) => Some(k as int), None => None::<int> }),
            scan_ops(tv, lo as int, hi as int, 0, None) == scan_ops(tv, i as int, hi as int, level as int, gsplit),
        decreases hi - i,
    {
        let t = &tokens[i];
        if is_tok(t, Token::SP_S.value()) {
            level += 1;
        } else if is_tok(t, Token::SP_E.value()) {
            if level == 0 {
                return Err(ParseError::UnopenedGroup);
            }
            level -= 1;
        } else if level == 0 && (is_tok(t, Token::AND.value()) || is_tok(t, Token::OR.value())) {
            split = Some(i);
            proof {
                gsplit = Some(i as int);
            }
        }
        i += 1;
    }
    if level != 0 {
        return Err(ParseError::UnclosedGroup);
    }
    match split {
        Some(k) => {
            let left = match parse_and_or(tokens, lo, k) {
                Ok(n) => n,
                Err(e) => return Err(e),
            };
            let right = match parse_invert(tokens, k + 1, hi) {
                Ok(n) => n,
                Err(e) => return Err(e),
            };
            if is_tok(&tokens[k], Token::AND.value()) {
                Ok(get_and_node(left, right))
            } else {
                Ok(get_or_node(left, right))
            }
        },
        None => parse_invert(tokens, lo, hi),
    }
}

/// A complement when the tokens `lo .. hi` open with `!`.
pub fn parse_invert(tokens: &Vec<String>, lo: usize, hi: usize) -> (r: Result<Node, ParseError>)
    requires
        lo <= hi <= tokens@.len(),
    ensures
        agrees(r, invert_tree(views(tokens@), lo as int, hi as int)),
    decreases hi - lo, 3nat,
{
    if lo == hi {
        Err(ParseError::Blank)
    } else if is_tok(&tokens[lo], Token::INVT.value()) {
        match parse_concat(tokens, lo + 1, hi) {
            Ok(n) => Ok(get_invert_node(n)),
            Err(e) => Err(e),
        }
    } else {
        parse_concat(tokens, lo, hi)
    }
}

/// The atom at `i`, and where the next one starts.
pub fn parse_atom(tokens: &Vec<String>, i: usize, hi: usize) -> (r: Result<(Node, usize), ParseError>)
    requires
        i < hi <= tokens@.len(),
    ensures
        match r {
            Ok((n, j)) => i < j <= hi && atom_tree(views(tokens@), i as int, hi as int) == Ok::<(Tree, int), ParseError>((tree_of(n), j as int)),
            Err(e) => atom_tree(views(tokens@), i as int, hi as int) == Err::<(Tree, int), ParseError>(e),
        },
    decreases hi - i, 0nat,
{
    let t = &tokens[i];
    if is_tok(t, Token::INVT.value()) || is_tok(t, Token::REPT.value()) {
        return Err(ParseError::Misplaced);
    }
    if is_tok(t, Token::SP_E.value()) {
        return Err(ParseError::UnopenedGroup);
    }
    if is_tok(t, Token::CH_E.value()) {
        return Err(ParseError::UnopenedClass);
    }
    let (node, j) = if is_tok(t, Token::SP_S.value()) {
        match close_group(tokens, i + 1, hi) {
            None => return Err(ParseError::UnclosedGroup),
            Some(j) => match parse_and_or(tokens, i + 1, j) {
                Ok(n) => (n, j + 1),
                Err(e) => return Err(e),
            },
        }
    } else if is_tok(t, Token::CH_S.value()) {
        match close_class(tokens, i + 1, hi) {
            Err(e) => return Err(e),
            Ok(j) => (parse_chex(tokens, i + 1, j), j + 1),
        }
    } else {
        (parse_inc_chex(tokens, i, i + 1), i + 1)
    };
    if j < hi && is_tok(&tokens[j], Token::REPT.value()) {
        Ok((get_repeat_node(node), j + 1))
    } else {
        Ok((node, j))
    }
}

/// A sequence of atoms, each a group, a bracketed class or one character,
/// and each maybe followed by `+`.
pub fn parse_concat(tokens: &Vec<String>, lo: usize, hi: usize) -> (r: Result<Node, ParseError>)
    requires
        lo <= hi <= tokens@.len(),
    ensures
        agrees(r, concat_tree(views(tokens@), lo as int, hi as int)),
    decreases hi - lo, 2nat,
{
    let ghost tv = views(tokens@);
    let mut nodes: Vec<Node> = Vec::new();
    let ghost mut pre: Seq<Tree> = Seq::empty();
    let mut i: usize = lo;
    proof {
        match atoms_tree(tv, lo as int, hi as int) {
            Ok(rest) => {
                assert(pre + rest =~= rest);
            },
            Err(e) => {},
        }
    }
    while i < hi
        invariant
            lo <= i <= hi <= tokens@.len(),
            tv == views(tokens@),
            nodes@.len() == pre.len(),
            forall|k: int| 0 <= k < pre.len() ==> tree_of(#[trigger] nodes@[k]) == pre[k],
            match atoms_tree(tv, i as int, hi as int) {
                Err(e) => atoms_tree(tv, lo as int, hi as int) == Err::<Seq<Tree>, ParseError>(e),
                Ok(rest) => atoms_tree(tv, lo as int, hi as int) == Ok::<Seq<Tree>, ParseError>(pre + rest),
            },
        decreases hi - i,
    {
        let (node, j) = match parse_atom(tokens, i, hi) {
            Ok(p) => p,
            Err(e) => return Err(e),
        };
        proof {
            let t = tree_of(node);
            match atoms_tree(tv, j as int, hi as int) {
                Ok(rest) => {
                    assert(pre.push(t) + rest =~= pre + (seq![t] + rest));
                },
                Err(e) => {},
            }
            pre = pre.push(t);
        }
        nodes.push(node);
        i = j;
    }
    proof {
        assert(pre + Seq::<Tree>::empty() =~= pre);
    }
    if nodes.len() == 0 {
        Err(ParseError::Blank)
    } else if nodes.len() == 1 {
        let n = nodes.pop().unwrap();
        Ok(n)
    } else {
        let r = get_concat_node(nodes);
        proof {
            lemma_trees_of(r, pre.len() as int);
            assert(trees_of(r, pre.len() as int) =~= pre);
        }
        Ok(r)
    }
}

/// No concatenation in the tree is empty.
pub open spec fn no_empty(t: Tree) -> bool
    decreases t, 1nat, 0int,
{
    match t {
        Tree::And { left, right } => no_empty(*left) && no_empty(*right),
        Tree::Or { left, right } => no_empty(*left) && no_empty(*right),
        Tree::Invert { node } => no_empty(*node),
        Tree::Repeat { node } => no_empty(*node),
        Tree::Concat { nodes } => nodes.len() > 0 && parts_no_empty(t, nodes.len() as int),
        _ => true,
    }
}

/// No concatenation in the first `k` parts of `t` is empty.
pub open spec fn parts_no_empty(t: Tree, k: int) -> bool
    decreases t, 0nat, k,
{
    match t {
        Tree::Concat { nodes } => if k <= 0 || k > nodes.len() {
            true
        } else {
            parts_no_empty(t, k - 1) && no_empty(nodes[k - 1])
        },
        _ => true,
    }
}

pub proof fn lemma_parts_no_empty(t: Tree, k: int)
    requires
        t is Concat,
        0 <= k <= t->nodes.len(),
    ensures
        parts_no_empty(t, k) <==> forall|j: int| 0 <= j < k ==> no_empty(#[trigger] t->nodes[j]),
    decreases k,
{
    if k > 0 {
        lemma_parts_no_empty(t, k - 1);
    }
}

/// The grammar's trees hold no empty concatenation.
pub proof fn lemma_parse_no_blank(ts: Seq<Seq<char>>)
    ensures
        parse_tree(ts) matches Ok(t) ==> no_empty(t),
{
    lemma_and_or_no_empty(ts, 0, ts.len() as int);
}

proof fn lemma_and_or_no_empty(ts: Seq<Seq<char>>, lo: int, hi: int)
    ensures
        and_or_tree(ts, lo, hi) matches Ok(t) ==> no_empty(t),
    decreases hi - lo, 4nat,
{
    match scan_ops(ts, lo, hi, 0, None) {
        Ok(Some(k)) => if lo <= k < hi {
            lemma_and_or_no_empty(ts, lo, k);
            lemma_invert_no_empty(ts, k + 1, hi);
        },
        Ok(None) => lemma_invert_no_empty(ts, lo, hi),
        _ => {},
    }
}

proof fn lemma_invert_no_empty(ts: Seq<Seq<char>>, lo: int, hi: int)
    ensures
        invert_tree(ts, lo, hi) matches Ok(t) ==> no_empty(t),
    decreases hi - lo, 3nat,
{
    if lo < hi {
        if is_t(ts[lo], token_char(Token::INVT)) {
            lemma_concat_no_empty(ts, lo + 1, hi);
        } else {
            lemma_concat_no_empty(ts, lo, hi);
        }
    }
}

proof fn lemma_concat_no_empty(ts: Seq<Seq<char>>, lo: int, hi: int)
    ensures
        concat_tree(ts, lo, hi) matches Ok(t) ==> no_empty(t),
    decreases hi - lo, 2nat,
{
    lemma_atoms_no_empty(ts, lo, hi);
    match atoms_tree(ts, lo, hi) {
        Ok(s) => {
            if s.len() >= 2 {
                let t = Tree::Concat { nodes: s };
                lemma_parts_no_empty(t, s.len() as int);
            }
        },
        Err(_) => {},
    }
}

proof fn lemma_atoms_no_empty(ts: Seq<Seq<char>>, i: int, hi: int)
    ensures
        atoms_tree(ts, i, hi) matches Ok(s) ==> forall|j: int| 0 <= j < s.len() ==> no_empty(#[trigger] s[j]),
    decreases hi - i, 1nat,
{
    if i < hi {
        lemma_atom_no_empty(ts, i, hi);
        match atom_tree(ts, i, hi) {
            Ok((t, j)) => {
                if i < j <= hi {
                    lemma_atoms_no_empty(ts, j, hi);
                    match atoms_tree(ts, j, hi) {
                        Ok(rest) => {
                            let s = seq![t] + rest;
                            assert forall|k: int| 0 <= k < s.len() implies no_empty(#[trigger] s[k]) by {
                                if k > 0 {
                                    assert(s[k] == rest[k - 1]);
                                }
                            }
                        },
                        Err(_) => {},
                    }
                }
            },
            Err(_) => {},
        }
    }
}

proof fn lemma_atom_no_empty(ts: Seq<Seq<char>>, i: int, hi: int)
    ensures
        atom_tree(ts, i, hi) matches Ok((t, j)) ==> no_empty(t),
    decreases hi - i, 0nat,
{
    if i < hi {
        assert(no_empty(inc_tree(ts, i, i + 1)));
        match class_end(ts, i + 1, hi) {
            Ok(j) => {
                assert(no_empty(chex_tree(ts, i + 1, j)));
            },
            Err(_) => {},
        }
    }
    if i < hi && is_t(ts[i], token_char(Token::SP_S)) {
        match group_end(ts, i + 1, hi, 1) {
            Some(j) => {
                if i + 1 <= j < hi {
                    lemma_and_or_no_empty(ts, i + 1, j);
                }
            },
            None => {},
        }
    }
}

} // verus!
