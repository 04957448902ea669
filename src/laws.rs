use vstd::prelude::*;

use crate::closure::{concat_lang, is_concat_of, is_repeat_of, lemma_plus_unfold, plus_lang, plus_split};
use crate::spex::{
    covered, edges_partition, is_complement_of, is_intersection_of, is_union_of, lang_empty, lang_within, same_lang,
    Kind, Spex,
};

verus! {

/// No automaton accepts the empty string.
pub proof fn lemma_no_empty_string(a: &Spex)
    requires
        a.wf(),
    ensures
        !a.accepts(Seq::<char>::empty()),
{
}

/// Idempotence: `A ∪ A = A` and `A ∩ A = A`.
pub proof fn law_idempotence(a: &Spex, u: &Spex, i: &Spex)
    requires
        a.wf(),
        is_union_of(u, a, a),
        is_intersection_of(i, a, a),
    ensures
        same_lang(u, a),
        same_lang(i, a),
{
    assert forall|w: Seq<char>| #[trigger] u.accepts(w) <==> a.accepts(w) by {
        assert(u.accepts(w) <==> (a.accepts(w) || a.accepts(w)));
    }
    assert forall|w: Seq<char>| #[trigger] i.accepts(w) <==> a.accepts(w) by {
        assert(i.accepts(w) <==> (a.accepts(w) && a.accepts(w)));
    }
}

/// Double complement: `¬¬A = A`.
pub proof fn law_double_complement(a: &Spex, na: &Spex, nna: &Spex)
    requires
        a.wf(),
        is_complement_of(na, a),
        is_complement_of(nna, na),
    ensures
        same_lang(nna, a),
{
    assert forall|w: Seq<char>| #[trigger] nna.accepts(w) <==> a.accepts(w) by {
        assert(nna.accepts(w) <==> (w.len() > 0 && !na.accepts(w)));
        assert(na.accepts(w) <==> (w.len() > 0 && !a.accepts(w)));
        if w.len() == 0 {
            assert(w =~= Seq::<char>::empty());
        }
    }
}

/// De Morgan: `¬(A ∪ B) = ¬A ∩ ¬B`.
pub proof fn law_de_morgan_union(a: &Spex, b: &Spex, u: &Spex, nu: &Spex, na: &Spex, nb: &Spex, x: &Spex)
    requires
        a.wf(),
        b.wf(),
        is_union_of(u, a, b),
        is_complement_of(nu, u),
        is_complement_of(na, a),
        is_complement_of(nb, b),
        is_intersection_of(x, na, nb),
    ensures
        same_lang(nu, x),
{
    assert forall|w: Seq<char>| #[trigger] nu.accepts(w) <==> x.accepts(w) by {
        assert(nu.accepts(w) <==> (w.len() > 0 && !u.accepts(w)));
        assert(u.accepts(w) <==> (a.accepts(w) || b.accepts(w)));
        assert(x.accepts(w) <==> (na.accepts(w) && nb.accepts(w)));
        assert(na.accepts(w) <==> (w.len() > 0 && !a.accepts(w)));
        assert(nb.accepts(w) <==> (w.len() > 0 && !b.accepts(w)));
    }
}

/// De Morgan: `¬(A ∩ B) = ¬A ∪ ¬B`.
pub proof fn law_de_morgan_intersection(a: &Spex, b: &Spex, i: &Spex, ni: &Spex, na: &Spex, nb: &Spex, x: &Spex)
    requires
        a.wf(),
        b.wf(),
        is_intersection_of(i, a, b),
        is_complement_of(ni, i),
        is_complement_of(na, a),
        is_complement_of(nb, b),
        is_union_of(x, na, nb),
    ensures
        same_lang(ni, x),
{
    assert forall|w: Seq<char>| #[trigger] ni.accepts(w) <==> x.accepts(w) by {
        assert(ni.accepts(w) <==> (w.len() > 0 && !i.accepts(w)));
        assert(i.accepts(w) <==> (a.accepts(w) && b.accepts(w)));
        assert(x.accepts(w) <==> (na.accepts(w) || nb.accepts(w)));
        assert(na.accepts(w) <==> (w.len() > 0 && !a.accepts(w)));
        assert(nb.accepts(w) <==> (w.len() > 0 && !b.accepts(w)));
    }
}

/// Absorption: `A ∪ (A ∩ B) = A`.
pub proof fn law_absorption(a: &Spex, b: &Spex, i: &Spex, u: &Spex)
    requires
        is_intersection_of(i, a, b),
        is_union_of(u, a, i),
    ensures
        same_lang(u, a),
{
    assert forall|w: Seq<char>| #[trigger] u.accepts(w) <==> a.accepts(w) by {
        assert(u.accepts(w) <==> (a.accepts(w) || i.accepts(w)));
        assert(i.accepts(w) <==> (a.accepts(w) && b.accepts(w)));
    }
}

/// Containment: `A ⊆ B` exactly when `A ∩ ¬B = ∅`, and exactly when `A ∪ B = B`.
pub proof fn law_containment(a: &Spex, b: &Spex, nb: &Spex, x: &Spex, u: &Spex)
    requires
        a.wf(),
        b.wf(),
        is_complement_of(nb, b),
        is_intersection_of(x, a, nb),
        is_union_of(u, a, b),
    ensures
        lang_within(a, b) <==> lang_empty(x),
        lang_within(a, b) <==> same_lang(u, b),
{
    assert forall|w: Seq<char>| #[trigger] x.accepts(w) <==> (a.accepts(w) && !b.accepts(w)) by {
        assert(x.accepts(w) <==> (a.accepts(w) && nb.accepts(w)));
        assert(nb.accepts(w) <==> (w.len() > 0 && !b.accepts(w)));
        if w.len() == 0 {
            assert(w =~= Seq::<char>::empty());
        }
    }
    assert forall|w: Seq<char>| #[trigger] u.accepts(w) <==> (a.accepts(w) || b.accepts(w)) by {}
    if !lang_within(a, b) {
        let w = choose|w: Seq<char>| !(#[trigger] a.accepts(w) ==> b.accepts(w));
        assert(x.accepts(w));
        assert(!(u.accepts(w) <==> b.accepts(w)));
    }
    if !lang_empty(x) {
        let w = choose|w: Seq<char>| #[trigger] x.accepts(w);
        assert(!(a.accepts(w) ==> b.accepts(w)));
    }
    if !same_lang(u, b) {
        let w = choose|w: Seq<char>| !(#[trigger] u.accepts(w) <==> b.accepts(w));
        assert(!(a.accepts(w) ==> b.accepts(w)));
    }
}

/// Totality and determinism: out of every state, exactly one edge holds each
/// character.
pub proof fn law_edges_partition(m: &Spex, s: int, c: char)
    requires
        m.wf(),
        0 <= s < m.n(),
    ensures
        exists|e: int| 0 <= e < m.out(s).len() && #[trigger] m.out(s)[e].chex.has(c),
        forall|e1: int, e2: int|
            0 <= e1 < m.out(s).len() && 0 <= e2 < m.out(s).len() && #[trigger] m.out(s)[e1].chex.has(c)
                && #[trigger] m.out(s)[e2].chex.has(c) ==> e1 == e2,
{
    assert(edges_partition(m.out(s)));
    assert(covered(m.out(s), c));
}

/// Concatenation with an empty language is empty: `∅ · A = A · ∅ = ∅`.
pub proof fn law_concat_blank(a: &Spex, z: &Spex, left: &Spex, right: &Spex)
    requires
        lang_empty(z),
        is_concat_of(left, z, a),
        is_concat_of(right, a, z),
    ensures
        lang_empty(left),
        lang_empty(right),
{
    assert forall|w: Seq<char>| !#[trigger] left.accepts(w) by {
        if concat_lang(z, a, w) {
            let i = choose|i: int| 0 <= i <= w.len() && z.accepts(w.subrange(0, i)) && #[trigger] a.accepts(w.subrange(i, w.len() as int));
        }
    }
    assert forall|w: Seq<char>| !#[trigger] right.accepts(w) by {
        if concat_lang(a, z, w) {
            let i = choose|i: int| 0 <= i <= w.len() && a.accepts(w.subrange(0, i)) && #[trigger] z.accepts(w.subrange(i, w.len() as int));
        }
    }
}

/// A string of the repetition is not empty.
proof fn lemma_plus_nonempty(a: &Spex, w: Seq<char>)
    requires
        a.wf(),
        plus_lang(a, w),
    ensures
        w.len() > 0,
{
    if w.len() == 0 {
        assert(w =~= Seq::<char>::empty());
        assert(!plus_split(a, w, 0));
    }
}

/// Two strings of the repetition make one.
proof fn lemma_plus_append(a: &Spex, u: Seq<char>, v: Seq<char>)
    requires
        a.wf(),
        plus_lang(a, u),
        plus_lang(a, v),
    ensures
        plus_lang(a, u + v),
    decreases v.len(),
{
    lemma_plus_nonempty(a, u);
    lemma_plus_nonempty(a, v);
    let w = u + v;
    lemma_plus_unfold(a, v);
    lemma_plus_unfold(a, w);
    if a.accepts(v) {
        let i = u.len() as int;
        assert(w.subrange(0, i) =~= u);
        assert(w.subrange(i, w.len() as int) =~= v);
        assert(0 < i < w.len() && plus_lang(a, w.subrange(0, i)) && a.accepts(w.subrange(i, w.len() as int)));
    } else {
        let k = choose|k: int| 0 < k < v.len() && #[trigger] plus_lang(a, v.subrange(0, k)) && a.accepts(v.subrange(k, v.len() as int));
        lemma_plus_append(a, u, v.subrange(0, k));
        let i = u.len() + k;
        assert(w.subrange(0, i) =~= u + v.subrange(0, k));
        assert(w.subrange(i, w.len() as int) =~= v.subrange(k, v.len() as int));
        assert(0 < i < w.len() && plus_lang(a, w.subrange(0, i)) && a.accepts(w.subrange(i, w.len() as int)));
    }
}

/// Repetition holds its operand and is closed under concatenation:
/// `A ⊆ A⁺` and `A⁺ · A⁺ ⊆ A⁺`.
pub proof fn law_repeat(a: &Spex, p: &Spex, pp: &Spex)
    requires
        a.wf(),
        is_repeat_of(p, a),
        is_concat_of(pp, p, p),
    ensures
        lang_within(a, p),
        lang_within(pp, p),
{
    assert forall|w: Seq<char>| #[trigger] a.accepts(w) implies p.accepts(w) by {
        lemma_plus_unfold(a, w);
    }
    assert forall|w: Seq<char>| #[trigger] pp.accepts(w) implies p.accepts(w) by {
        let i = choose|i: int| 0 <= i <= w.len() && p.accepts(w.subrange(0, i)) && #[trigger] p.accepts(w.subrange(i, w.len() as int));
        lemma_plus_append(a, w.subrange(0, i), w.subrange(i, w.len() as int));
        assert(w.subrange(0, i) + w.subrange(i, w.len() as int) =~= w);
    }
}

/// Unrolling a repetition: `A⁺ = A ∪ A⁺ · A`, which is `A⁺ = A · A*` when the
/// empty string is left out.
pub proof fn law_repeat_unfold(a: &Spex, p: &Spex, pa: &Spex, u: &Spex)
    requires
        a.wf(),
        p.wf(),
        is_repeat_of(p, a),
        is_concat_of(pa, p, a),
        is_union_of(u, a, pa),
    ensures
        same_lang(u, p),
{
    assert forall|w: Seq<char>| #[trigger] u.accepts(w) <==> p.accepts(w) by {
        lemma_plus_unfold(a, w);
        if pa.accepts(w) {
            let i = choose|i: int| 0 <= i <= w.len() && p.accepts(w.subrange(0, i)) && #[trigger] a.accepts(w.subrange(i, w.len() as int));
            if i == 0 {
                assert(p.accepts(w.subrange(0, 0)));
                lemma_plus_nonempty(a, w.subrange(0, 0));
            }
            if i == w.len() {
                assert(w.subrange(i, w.len() as int) =~= Seq::<char>::empty());
            }
            assert(0 < i < w.len() && plus_lang(a, w.subrange(0, i)) && a.accepts(w.subrange(i, w.len() as int)));
        }
        if p.accepts(w) && !a.accepts(w) {
            let k = choose|k: int| 0 < k < w.len() && #[trigger] plus_lang(a, w.subrange(0, k)) && a.accepts(w.subrange(k, w.len() as int));
            assert(p.accepts(w.subrange(0, k)));
            assert(concat_lang(p, a, w));
        }
    }
}

/// For an automaton whose states are all reached, as every automaton that this
/// library builds is, the kind `Blank` means exactly an empty language, and the
/// kind `Whole` exactly every non-empty string.
pub proof fn law_kind_exact(m: &Spex)
    requires
        m.wf(),
        m.reachable(),
    ensures
        (m.kind == Kind::Blank) == lang_empty(m),
        (m.kind == Kind::Whole) == (forall|w: Seq<char>| m.accepts(w) <==> w.len() > 0),
{
    if m.kind != Kind::Blank {
        let s = choose|s: int| 0 <= s < m.n() && #[trigger] m.accepts_sids@[s];
        assert(m.reached(s));
        let w = choose|w: Seq<char>| m.walk(0, w) == s;
        assert(m.accepts(w));
    } else {
        assert forall|w: Seq<char>| !#[trigger] m.accepts(w) by {
            m.lemma_kind(w);
        }
    }
    if m.kind == Kind::Whole {
        assert forall|w: Seq<char>| m.accepts(w) <==> w.len() > 0 by {
            m.lemma_kind(w);
        }
    } else if forall|w: Seq<char>| m.accepts(w) <==> w.len() > 0 {
        if m.none_accept() {
            m.lemma_step_range(0, 'a');
            assert(m.reached(1));
            let w = choose|w: Seq<char>| m.walk(0, w) == 1;
            if w.len() == 0 {
                assert(m.walk(0, w) == 0);
            }
            assert(m.accepts(w));
        } else {
            let s = choose|s: int| 0 < s < m.n() && !#[trigger] m.accepts_sids@[s];
            assert(m.reached(s));
            let w = choose|w: Seq<char>| m.walk(0, w) == s;
            if w.len() == 0 {
                assert(m.walk(0, w) == 0);
            }
            assert(m.accepts(w));
        }
    }
}

/// Concatenation with an empty language gives an automaton of the kind
/// `Blank`, for operands that the library built.
pub proof fn law_concat_blank_kind(a: &Spex, z: &Spex, left: &Spex, right: &Spex)
    requires
        lang_empty(z),
        left.wf(),
        right.wf(),
        left.reachable(),
        right.reachable(),
        is_concat_of(left, z, a),
        is_concat_of(right, a, z),
    ensures
        left.kind == Kind::Blank,
        right.kind == Kind::Blank,
{
    law_concat_blank(a, z, left, right);
    law_kind_exact(left);
    law_kind_exact(right);
}

} // verus!
