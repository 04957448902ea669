use vstd::prelude::*;

use crate::token::{token_char, Token};
use crate::text::push_char;

verus! {

/// Classification of a character class.
#[derive(Debug, Clone, Copy, PartialEq, Eq, Structural)]
pub enum Kind {
    /// the empty class
    Blank,
    /// the class of every character
    Whole,
    /// any other class
    Other,
}

/// A character class: either a finite set of characters (`include_flg`) or the
/// complement of one. The characters are held sorted and without repetition, and
/// `str` is the canonical text of the class.
#[derive(Debug, Clone)]
pub struct Chex {
    pub kind: Kind,
    pub len: usize,
    pub include_flg: bool,
    pub char_set: Vec<char>,
    pub str: String,
}

/// Strictly ascending by code point, hence without repetition.
pub open spec fn sorted_chars(s: Seq<char>) -> bool {
    forall|i: int, j: int| 0 <= i < j < s.len() ==> s[i] < s[j]
}

/// The kind that a class of `n` listed characters with the given polarity has.
pub open spec fn kind_of(include_flg: bool, n: nat) -> Kind {
    if n == 0 {
        if include_flg {
            Kind::Blank
        } else {
            Kind::Whole
        }
    } else {
        Kind::Other
    }
}

/// Canonical text: `[]`, `.`, `c`, `[cs]` or `[^cs]`, with `cs` sorted.
pub open spec fn canonical_text(include_flg: bool, cs: Seq<char>) -> Seq<char> {
    if cs.len() == 0 {
        if include_flg {
            seq![token_char(Token::CH_S), token_char(Token::CH_E)]
        } else {
            seq![token_char(Token::WHOL)]
        }
    } else if include_flg && cs.len() == 1 {
        cs
    } else if include_flg {
        seq![token_char(Token::CH_S)] + cs + seq![token_char(Token::CH_E)]
    } else {
        seq![token_char(Token::CH_S), token_char(Token::DENY)] + cs + seq![token_char(Token::CH_E)]
    }
}

fn contains_char(v: &Vec<char>, c: char) -> (r: bool)
    ensures
        r == v@.contains(c),
{
    let mut i: usize = 0;
    while i < v.len()
        invariant
            i <= v.len(),
            forall|k: int| 0 <= k < i ==> v@[k] != c,
        decreases v.len() - i,
    {
        if v[i] == c {
            return true;
        }
        i += 1;
    }
    false
}

/// Inserts `c` at its place in a sorted vector, unless it is there already.
fn insert_sorted(v: Vec<char>, c: char) -> (r: Vec<char>)
    requires
        sorted_chars(v@),
    ensures
        sorted_chars(r@),
        forall|x: char| #[trigger] r@.contains(x) <==> (v@.contains(x) || x == c),
{
    let ghost v0 = v@;
    let mut v = v;
    let mut i: usize = 0;
    while i < v.len() && v[i] < c
        invariant
            i <= v.len(),
            v@ == v0,
            sorted_chars(v@),
            forall|k: int| 0 <= k < i ==> v@[k] < c,
        decreases v.len() - i,
    {
        i += 1;
    }
    if i < v.len() && v[i] == c {
        assert(v@[i as int] == c);
        assert(v@.contains(c));
        assert forall|x: char| #[trigger] v@.contains(x) <==> (v0.contains(x) || x == c) by {
            if x == c {
                assert(v@[i as int] == c);
            }
        }
    } else {
        proof {
            if i < v.len() {
                assert(v@[i as int] > c);
            }
        }
        let ghost before = v@;
        v.insert(i, c);
        proof {
            assert(v@ == before.subrange(0, i as int).push(c) + before.subrange(i as int, before.len() as int));
            assert forall|x: char| #[trigger] v@.contains(x) <==> (before.contains(x) || x == c) by {
                if v@.contains(x) {
                    let k = choose|k: int| 0 <= k < v@.len() && v@[k] == x;
                    if k < i {
                        assert(before[k] == x);
                    } else if k > i {
                        assert(before[k - 1] == x);
                    } else {
                        assert(x == c);
                    }
                }
                if before.contains(x) {
                    let k = choose|k: int| 0 <= k < before.len() && before[k] == x;
                    if k < i {
                        assert(v@[k] == x);
                    } else {
                        assert(v@[k + 1] == x);
                    }
                }
                if x == c {
                    assert(v@[i as int] == c);
                }
            }
            assert(before == v0);
        }
    }
    v
}

/// `x` is among the first `n` elements of `s`.
pub open spec fn in_prefix(s: Seq<char>, n: int, x: char) -> bool {
    exists|j: int| 0 <= j < n && s[j] == x
}

proof fn lemma_in_prefix_full(s: Seq<char>)
    ensures
        forall|x: char| in_prefix(s, s.len() as int, x) <==> s.contains(x),
{
    assert forall|x: char| in_prefix(s, s.len() as int, x) <==> s.contains(x) by {
        if s.contains(x) {
            let k = choose|k: int| 0 <= k < s.len() && s[k] == x;
            assert(in_prefix(s, s.len() as int, x));
        }
    }
}

proof fn lemma_in_prefix_step(s: Seq<char>, n: int)
    requires
        0 <= n < s.len(),
    ensures
        forall|x: char| in_prefix(s, n + 1, x) <==> (in_prefix(s, n, x) || x == s[n]),
{
    assert forall|x: char| in_prefix(s, n + 1, x) <==> (in_prefix(s, n, x) || x == s[n]) by {
        if in_prefix(s, n + 1, x) {
            let j = choose|j: int| 0 <= j < n + 1 && s[j] == x;
            if j < n {
                assert(in_prefix(s, n, x));
            }
        }
        if x == s[n] {
            assert(0 <= n < n + 1 && s[n] == x);
        }
    }
}

/// The characters of `chars`, sorted and without repetition.
fn sorted_set_of(chars: &Vec<char>) -> (r: Vec<char>)
    ensures
        sorted_chars(r@),
        forall|x: char| r@.contains(x) <==> chars@.contains(x),
{
    let mut r: Vec<char> = Vec::new();
    let mut i: usize = 0;
    while i < chars.len()
        invariant
            i <= chars.len(),
            sorted_chars(r@),
            forall|x: char| r@.contains(x) <==> in_prefix(chars@, i as int, x),
        decreases chars.len() - i,
    {
        r = insert_sorted(r, chars[i]);
        proof {
            lemma_in_prefix_step(chars@, i as int);
        }
        i += 1;
    }
    proof {
        lemma_in_prefix_full(chars@);
    }
    r
}

/// The characters of `a` that are in `b` (`keep`) or not in `b` (`!keep`).
fn filter_chars(a: &Vec<char>, b: &Vec<char>, keep: bool) -> (r: Vec<char>)
    requires
        sorted_chars(a@),
    ensures
        sorted_chars(r@),
        forall|x: char| r@.contains(x) <==> (a@.contains(x) && b@.contains(x) == keep),
{
    let mut r: Vec<char> = Vec::new();
    let mut i: usize = 0;
    while i < a.len()
        invariant
            i <= a.len(),
            sorted_chars(a@),
            sorted_chars(r@),
            forall|k: int| 0 <= k < r@.len() ==> in_prefix(a@, i as int, #[trigger] r@[k]),
            forall|x: char| r@.contains(x) <==> (in_prefix(a@, i as int, x) && b@.contains(x) == keep),
        decreases a.len() - i,
    {
        let c = a[i];
        let ghost old_r = r@;
        proof {
            lemma_in_prefix_step(a@, i as int);
        }
        if contains_char(b, c) == keep {
            proof {
                assert forall|k: int| 0 <= k < old_r.len() implies old_r[k] < c by {
                    assert(in_prefix(a@, i as int, old_r[k]));
                    let j = choose|j: int| 0 <= j < i && a@[j] == old_r[k];
                }
            }
            r.push(c);
            proof {
                assert forall|x: char| r@.contains(x) <==> (old_r.contains(x) || x == c) by {
                    if r@.contains(x) {
                        let k = choose|k: int| 0 <= k < r@.len() && r@[k] == x;
                        if k < old_r.len() {
                            assert(old_r[k] == x);
                        }
                    }
                    if old_r.contains(x) {
                        let k = choose|k: int| 0 <= k < old_r.len() && old_r[k] == x;
                        assert(r@[k] == x);
                    }
                    if x == c {
                        assert(r@[r@.len() - 1] == x);
                    }
                }
            }
        }
        proof {
            assert forall|k: int| 0 <= k < r@.len() implies in_prefix(a@, i + 1, #[trigger] r@[k]) by {
                if k < old_r.len() {
                    assert(r@[k] == old_r[k]);
                    assert(in_prefix(a@, i as int, old_r[k]));
                }
            }
        }
        i += 1;
    }
    proof {
        lemma_in_prefix_full(a@);
    }
    r
}

/// The characters that are in `a` or in `b`.
fn union_chars(a: &Vec<char>, b: &Vec<char>) -> (r: Vec<char>)
    ensures
        forall|x: char| r@.contains(x) <==> (a@.contains(x) || b@.contains(x)),
{
    let mut r = a.clone();
    let mut i: usize = 0;
    while i < b.len()
        invariant
            i <= b.len(),
            forall|x: char| r@.contains(x) <==> (a@.contains(x) || in_prefix(b@, i as int, x)),
        decreases b.len() - i,
    {
        let ghost old_r = r@;
        r.push(b[i]);
        proof {
            lemma_in_prefix_step(b@, i as int);
            assert forall|x: char| r@.contains(x) <==> (old_r.contains(x) || x == b@[i as int]) by {
                if r@.contains(x) {
                    let k = choose|k: int| 0 <= k < r@.len() && r@[k] == x;
                    if k < old_r.len() {
                        assert(old_r[k] == x);
                    }
                }
                if old_r.contains(x) {
                    let k = choose|k: int| 0 <= k < old_r.len() && old_r[k] == x;
                    assert(r@[k] == x);
                }
                if x == b@[i as int] {
                    assert(r@[r@.len() - 1] == x);
                }
            }
            assert forall|x: char| r@.contains(x) <==> (a@.contains(x) || in_prefix(b@, i + 1, x)) by {
                assert(old_r.contains(x) <==> (a@.contains(x) || in_prefix(b@, i as int, x)));
            }
        }
        i += 1;
    }
    proof {
        lemma_in_prefix_full(b@);
    }
    r
}

/// Builds the canonical text of a class from its sorted characters.
fn canonical_string(include_flg: bool, cs: &Vec<char>) -> (r: String)
    ensures
        r@ == canonical_text(include_flg, cs@),
{
    let mut r = String::new();
    if cs.len() == 0 {
        if include_flg {
            push_char(&mut r, Token::CH_S.value());
            push_char(&mut r, Token::CH_E.value());
        } else {
            push_char(&mut r, Token::WHOL.value());
        }
        assert(r@ =~= canonical_text(include_flg, cs@));
        return r;
    }
    let bracketed = !(include_flg && cs.len() == 1);
    if bracketed {
        push_char(&mut r, Token::CH_S.value());
        if !include_flg {
            push_char(&mut r, Token::DENY.value());
        }
    }
    let ghost head = r@;
    let mut i: usize = 0;
    while i < cs.len()
        invariant
            i <= cs.len(),
            r@ == head + cs@.subrange(0, i as int),
        decreases cs.len() - i,
    {
        push_char(&mut r, cs[i]);
        assert(cs@.subrange(0, i + 1) =~= cs@.subrange(0, i as int).push(cs@[i as int]));
        i += 1;
    }
    assert(cs@.subrange(0, cs@.len() as int) =~= cs@);
    if bracketed {
        push_char(&mut r, Token::CH_E.value());
    }
    assert(r@ =~= canonical_text(include_flg, cs@));
    r
}

impl View for Chex {
    /// The polarity and the listed characters.
    type V = (bool, Seq<char>);

    open spec fn view(&self) -> (bool, Seq<char>) {
        (self.include_flg, self.char_set@)
    }
}

impl Chex {
    /// The characters are sorted and distinct, and `kind`, `len` and `str` agree with them.
    pub open spec fn wf(&self) -> bool {
        &&& sorted_chars(self.char_set@)
        &&& self.len == self.char_set@.len()
        &&& self.kind == kind_of(self.include_flg, self.char_set@.len())
        &&& self.str@ == canonical_text(self.include_flg, self.char_set@)
    }

    /// `c` belongs to the class.
    pub open spec fn has(&self, c: char) -> bool {
        self.include_flg == self.char_set@.contains(c)
    }

    /// Some character belongs to the class.
    pub open spec fn nonempty(&self) -> bool {
        exists|c: char| self.has(c)
    }

    /// The class holding `chars` (`include_flg`), or every character but those.
    pub fn new(chars: Vec<char>, include_flg: bool) -> (r: Self)
        ensures
            r.wf(),
            r.include_flg == include_flg,
            forall|x: char| r.char_set@.contains(x) <==> chars@.contains(x),
            forall|x: char| r.has(x) <==> (include_flg == chars@.contains(x)),
    {
        let char_set = sorted_set_of(&chars);
        let len = char_set.len();
        let kind = if len == 0 {
            if include_flg {
                Kind::Blank
            } else {
                Kind::Whole
            }
        } else {
            Kind::Other
        };
        let str = canonical_string(include_flg, &char_set);
        Chex { kind, len, include_flg, char_set, str }
    }

    /// The empty class.
    pub fn new_blank() -> (r: Self)
        ensures
            r.wf(),
            r@ == (true, Seq::<char>::empty()),
            r.kind == Kind::Blank,
            forall|x: char| !r.has(x),
    {
        let none: Vec<char> = Vec::new();
        let ghost e = none@;
        let r = Self::new(none, true);
        assert(r.char_set@ =~= Seq::<char>::empty()) by {
            if r.char_set@.len() > 0 {
                assert(r.char_set@.contains(r.char_set@[0]));
                assert(!e.contains(r.char_set@[0]));
            }
        }
        r
    }

    /// The class of every character.
    pub fn new_whole() -> (r: Self)
        ensures
            r.wf(),
            r@ == (false, Seq::<char>::empty()),
            r.kind == Kind::Whole,
            forall|x: char| r.has(x),
    {
        let none: Vec<char> = Vec::new();
        let ghost e = none@;
        let r = Self::new(none, false);
        assert(r.char_set@ =~= Seq::<char>::empty()) by {
            if r.char_set@.len() > 0 {
                assert(r.char_set@.contains(r.char_set@[0]));
                assert(!e.contains(r.char_set@[0]));
            }
        }
        r
    }

    /// The class is empty.
    pub fn blank(&self) -> (r: bool)
        requires
            self.wf(),
        ensures
            r == (self.kind == Kind::Blank),
            r <==> (self.include_flg && self.char_set@.len() == 0),
            r ==> forall|x: char| !self.has(x),
    {
        match self.kind {
            Kind::Blank => true,
            _ => false,
        }
    }

    /// The class holds every character.
    pub fn whole(&self) -> (r: bool)
        requires
            self.wf(),
        ensures
            r == (self.kind == Kind::Whole),
            r <==> (!self.include_flg && self.char_set@.len() == 0),
            r ==> forall|x: char| self.has(x),
    {
        match self.kind {
            Kind::Whole => true,
            _ => false,
        }
    }

    /// A copy of the class.
    pub fn duplicate(&self) -> (r: Self)
        requires
            self.wf(),
        ensures
            r.wf(),
            r@ == self@,
            forall|x: char| r.has(x) == self.has(x),
    {
        Chex {
            kind: self.kind,
            len: self.len,
            include_flg: self.include_flg,
            char_set: self.char_set.clone(),
            str: self.str.clone(),
        }
    }

    /// The characters not in the class.
    pub fn complement(&self) -> (r: Self)
        requires
            self.wf(),
        ensures
            r.wf(),
            r@ == (!self.include_flg, self.char_set@),
            forall|x: char| r.has(x) <==> !self.has(x),
    {
        let r = Self::new(self.char_set.clone(), !self.include_flg);
        proof {
            lemma_sorted_same_members(r.char_set@, self.char_set@);
        }
        r
    }

    /// The characters in either class.
    pub fn union(&self, other: &Self) -> (r: Self)
        requires
            self.wf(),
            other.wf(),
        ensures
            r.wf(),
            r.include_flg == (self.include_flg && other.include_flg),
            forall|x: char| r.has(x) <==> (self.has(x) || other.has(x)),
    {
        if self.include_flg {
            if other.include_flg {
                Self::new(union_chars(&self.char_set, &other.char_set), true)
            } else {
                Self::new(filter_chars(&other.char_set, &self.char_set, false), false)
            }
        } else {
            if other.include_flg {
                Self::new(filter_chars(&self.char_set, &other.char_set, false), false)
            } else {
                Self::new(filter_chars(&self.char_set, &other.char_set, true), false)
            }
        }
    }

    /// The characters in both classes.
    pub fn intersect(&self, other: &Self) -> (r: Self)
        requires
            self.wf(),
            other.wf(),
        ensures
            r.wf(),
            r.include_flg == (self.include_flg || other.include_flg),
            forall|x: char| r.has(x) <==> (self.has(x) && other.has(x)),
    {
        if self.include_flg {
            if other.include_flg {
                Self::new(filter_chars(&self.char_set, &other.char_set, true), true)
            } else {
                Self::new(filter_chars(&self.char_set, &other.char_set, false), true)
            }
        } else {
            if other.include_flg {
                Self::new(filter_chars(&other.char_set, &self.char_set, false), true)
            } else {
                Self::new(union_chars(&self.char_set, &other.char_set), false)
            }
        }
    }

    /// Every character of `other` is in `self`.
    pub fn includes(&self, other: &Self) -> (r: bool)
        requires
            self.wf(),
            other.wf(),
        ensures
            r <==> forall|x: char| other.has(x) ==> self.has(x),
    {
        if other.blank() {
            return true;
        }
        if self.whole() {
            return true;
        }
        if self.include_flg && !other.include_flg {
            // a finite class holds a co-finite one only when together they list every character
            let listed = sorted_set_of(&union_chars(&self.char_set, &other.char_set));
            let r = listed.len() >= CHAR_COUNT;
            proof {
                lemma_char_missing(listed@);
                if !r {
                    let c = choose|c: char| !listed@.contains(c);
                    assert(other.has(c) && !self.has(c));
                } else {
                    assert forall|x: char| other.has(x) implies self.has(x) by {
                        if !self.has(x) {
                            assert(!listed@.contains(x));
                        }
                    }
                }
            }
            return r;
        }
        let rest = self.complement().intersect(other);
        let r = rest.blank();
        proof {
            if !r {
                let c = rest.char_set@[0];
                assert(rest.char_set@.contains(c));
                assert(other.has(c) && !self.has(c));
            }
        }
        r
    }
}

/// Two sorted sequences with the same members are equal.
pub proof fn lemma_sorted_same_members(a: Seq<char>, b: Seq<char>)
    requires
        sorted_chars(a),
        sorted_chars(b),
        forall|x: char| a.contains(x) <==> b.contains(x),
    ensures
        a == b,
    decreases a.len() + b.len(),
{
    if a.len() == 0 || b.len() == 0 {
        if a.len() > 0 {
            assert(a.contains(a[0]));
        }
        if b.len() > 0 {
            assert(b.contains(b[0]));
        }
        assert(a =~= b);
    } else {
        // the first elements are the least of each, so they agree
        assert(a.contains(a[0]));
        assert(b.contains(b[0]));
        let i = choose|i: int| 0 <= i < b.len() && b[i] == a[0];
        let j = choose|j: int| 0 <= j < a.len() && a[j] == b[0];
        if i > 0 {
            assert(b[0] < b[i]);
            if j > 0 {
                assert(a[0] < a[j]);
            }
        }
        if j > 0 {
            assert(a[0] < a[j]);
        }
        assert(a[0] == b[0]);
        let ta = a.drop_first();
        let tb = b.drop_first();
        assert forall|x: char| ta.contains(x) <==> tb.contains(x) by {
            if ta.contains(x) {
                let k = choose|k: int| 0 <= k < ta.len() && ta[k] == x;
                assert(a[k + 1] == x);
                assert(a.contains(x));
                let m = choose|m: int| 0 <= m < b.len() && b[m] == x;
                assert(a[0] < a[k + 1]);
                if m == 0 {
                    assert(false);
                }
                assert(tb[m - 1] == x);
            }
            if tb.contains(x) {
                let k = choose|k: int| 0 <= k < tb.len() && tb[k] == x;
                assert(b[k + 1] == x);
                assert(b.contains(x));
                let m = choose|m: int| 0 <= m < a.len() && a[m] == x;
                assert(b[0] < b[k + 1]);
                if m == 0 {
                    assert(false);
                }
                assert(ta[m - 1] == x);
            }
        }
        lemma_sorted_same_members(ta, tb);
        assert(a =~= seq![a[0]] + ta);
        assert(b =~= seq![b[0]] + tb);
    }
}

impl PartialEq for Chex {
    /// Equal polarity and equal listed characters.
    fn eq(&self, other: &Self) -> (r: bool) {
        if self.include_flg != other.include_flg || self.char_set.len() != other.char_set.len() {
            return false;
        }
        let mut i: usize = 0;
        while i < self.char_set.len()
            invariant
                i <= self.char_set.len(),
                self.char_set.len() == other.char_set.len(),
                forall|k: int| 0 <= k < i ==> self.char_set@[k] == other.char_set@[k],
            decreases self.char_set.len() - i,
        {
            if self.char_set[i] != other.char_set[i] {
                return false;
            }
            i += 1;
        }
        assert(self.char_set@ =~= other.char_set@);
        true
    }
}

impl vstd::std_specs::cmp::PartialEqSpecImpl for Chex {
    open spec fn obeys_eq_spec() -> bool {
        true
    }

    open spec fn eq_spec(&self, other: &Chex) -> bool {
        self@ == other@
    }
}

/// Classes with equal polarity and listed characters hold the same characters;
/// well-formed classes of one polarity that hold the same characters are equal.
pub proof fn lemma_eq_iff_same_members(a: &Chex, b: &Chex)
    requires
        a.wf(),
        b.wf(),
        a.include_flg == b.include_flg,
    ensures
        (a@ == b@) <==> (forall|x: char| a.has(x) <==> b.has(x)),
{
    if forall|x: char| a.has(x) <==> b.has(x) {
        assert forall|x: char| a.char_set@.contains(x) <==> b.char_set@.contains(x) by {
            assert(a.has(x) <==> b.has(x));
        }
        lemma_sorted_same_members(a.char_set@, b.char_set@);
    }
}

/// How many characters there are: the code points below 0x110000 but the surrogates.
pub const CHAR_COUNT: usize = 1112064;

/// The code of a character is a code point other than a surrogate.
proof fn lemma_char_range(c: char)
    ensures
        0 <= c as int <= 0x10FFFF,
        !(0xD800 <= c as int && c as int <= 0xDFFF),
{
}

/// A sorted list of characters misses some character exactly when it is
/// shorter than `CHAR_COUNT`.
pub proof fn lemma_char_missing(s: Seq<char>)
    requires
        sorted_chars(s),
    ensures
        (exists|c: char| !s.contains(c)) <==> s.len() < CHAR_COUNT,
{
    let codes = s.map_values(|c: char| c as int);
    let low = vstd::set_lib::set_int_range(0, 0xD800);
    let high = vstd::set_lib::set_int_range(0xE000, 0x110000);
    let all = low + high;
    assert(codes.no_duplicates()) by {
        assert forall|i: int, j: int| 0 <= i < codes.len() && 0 <= j < codes.len() && i != j implies codes[i] != codes[j] by {
            if i < j {
                assert(s[i] < s[j]);
            } else {
                assert(s[j] < s[i]);
            }
        }
    }
    codes.unique_seq_to_set();
    vstd::set_lib::lemma_int_range(0, 0xD800);
    vstd::set_lib::lemma_int_range(0xE000, 0x110000);
    assert(low.disjoint(high));
    vstd::set_lib::lemma_set_disjoint_lens(low, high);
    if exists|c: char| !s.contains(c) {
        let c = choose|c: char| !s.contains(c);
        let k = c as int;
        lemma_char_range(c);
        if k < 0xD800 {
            assert(low.contains(k));
        } else {
            assert(high.contains(k));
        }
        assert(all.contains(k));
        assert forall|x: int| #[trigger] codes.to_set().contains(x) implies all.remove(k).contains(x) by {
            let i = choose|i: int| 0 <= i < codes.len() && codes[i] == x;
            assert(x == s[i] as int);
            lemma_char_range(s[i]);
            if x < 0xD800 {
                assert(low.contains(x));
            } else {
                assert(high.contains(x));
            }
            if x == k {
                assert(s[i] == c);
            }
        }
        vstd::set_lib::lemma_len_subset(codes.to_set(), all.remove(k));
    }
    if forall|c: char| s.contains(c) {
        assert(codes.no_duplicates()) by {
            assert forall|i: int, j: int| 0 <= i < codes.len() && 0 <= j < codes.len() && i != j implies codes[i] != codes[j] by {
                if i < j {
                    assert(s[i] < s[j]);
                } else {
                    assert(s[j] < s[i]);
                }
            }
        }
        assert forall|k: int| #[trigger] all.contains(k) implies codes.to_set().contains(k) by {
            let c = k as char;
            assert(c as int == k);
            assert(s.contains(c));
            let i = choose|i: int| 0 <= i < s.len() && s[i] == c;
            assert(codes[i] == k);
        }
        vstd::set_lib::lemma_len_subset(all, codes.to_set());
    }
}

impl Chex {
    /// Some character is in the class.
    pub fn inhabited(&self) -> (r: bool)
        requires
            self.wf(),
        ensures
            r == self.nonempty(),
    {
        proof {
            lemma_char_missing(self.char_set@);
            if self.include_flg && self.char_set@.len() > 0 {
                assert(self.has(self.char_set@[0]));
            }
            if !self.include_flg {
                if exists|c: char| !self.char_set@.contains(c) {
                    let c = choose|c: char| !self.char_set@.contains(c);
                    assert(self.has(c));
                }
                if exists|c: char| self.has(c) {
                    let c = choose|c: char| self.has(c);
                    assert(!self.char_set@.contains(c));
                }
            }
        }
        if self.include_flg {
            self.char_set.len() > 0
        } else {
            self.char_set.len() < CHAR_COUNT
        }
    }
}

} // verus!
