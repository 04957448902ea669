use vstd::prelude::*;

use crate::chex::Chex;
use crate::spex::{
    covered, edges_ok, edges_partition, is_intersection_of, is_union_of, lang_within, same_lang, SidGen, Spex,
    Transition,
};

verus! {

/// A block of a partition of the characters, with the successors that every
/// character of the block leads to: `p` in the first automaton and the set
/// `qs` of states of the second.
pub struct Block {
    pub chex: Chex,
    pub p: usize,
    pub qs: Vec<bool>,
}

/// Labels that are well formed, cover every character and do not overlap.
pub open spec fn blocks_partition(bs: Seq<Block>) -> bool {
    &&& forall|k: int| 0 <= k < bs.len() ==> (#[trigger] bs[k]).chex.wf()
    &&& forall|k: int| 0 <= k < bs.len() ==> (#[trigger] bs[k]).chex.nonempty()
    &&& forall|c: char| #[trigger] block_covered(bs, c)
    &&& forall|k1: int, k2: int, c: char|
        0 <= k1 < bs.len() && 0 <= k2 < bs.len() && k1 != k2 && #[trigger] bs[k1].chex.has(c)
            ==> !#[trigger] bs[k2].chex.has(c)
}

/// `c` is in some block.
pub open spec fn block_covered(bs: Seq<Block>, c: char) -> bool {
    exists|k: int| 0 <= k < bs.len() && #[trigger] bs[k].chex.has(c)
}

/// Block `nb` is the part of block `b` on the edge `t`, with its successors
/// updated by `t`: the first automaton's when `into_p`, else the set.
pub open spec fn derived(b: Block, t: Transition, nb: Block, into_p: bool) -> bool {
    &&& forall|c: char| nb.chex.has(c) <==> (b.chex.has(c) && t.chex.has(c))
    &&& if into_p {
        nb.p == t.to_sid && nb.qs@ == b.qs@
    } else {
        nb.p == b.p && nb.qs@ == b.qs@.update(t.to_sid as int, true)
    }
}

/// Block `nb` is derived from one of `bs` and one of `edges`.
pub open spec fn has_origin(bs: Seq<Block>, edges: Seq<Transition>, nb: Block, into_p: bool) -> bool {
    exists|i: int, e: int| 0 <= i < bs.len() && 0 <= e < edges.len() && #[trigger] derived(bs[i], edges[e], nb, into_p)
}

/// Splits each block by the labels of `edges`, dropping empty parts.
fn refine(blocks: &Vec<Block>, edges: &Vec<Transition>, into_p: bool, n2: usize) -> (r: Vec<Block>)
    requires
        blocks_partition(blocks@),
        edges_partition(edges@),
        forall|e: int| 0 <= e < edges@.len() ==> (#[trigger] edges@[e]).chex.wf(),
        !into_p ==> forall|e: int| 0 <= e < edges@.len() ==> (#[trigger] edges@[e]).to_sid < n2,
        forall|k: int| 0 <= k < blocks@.len() ==> (#[trigger] blocks@[k]).qs@.len() == n2,
    ensures
        blocks_partition(r@),
        forall|k: int| 0 <= k < r@.len() ==> (#[trigger] r@[k]).qs@.len() == n2,
        forall|k: int| 0 <= k < r@.len() ==> has_origin(blocks@, edges@, #[trigger] r@[k], into_p),
{
    let mut r: Vec<Block> = Vec::new();
    let ghost mut origin: Seq<(int, int)> = Seq::empty();
    let mut i: usize = 0;
    while i < blocks.len()
        invariant
            blocks_partition(blocks@),
            edges_partition(edges@),
            forall|e: int| 0 <= e < edges@.len() ==> (#[trigger] edges@[e]).chex.wf(),
            !into_p ==> forall|e: int| 0 <= e < edges@.len() ==> (#[trigger] edges@[e]).to_sid < n2,
            forall|k: int| 0 <= k < blocks@.len() ==> (#[trigger] blocks@[k]).qs@.len() == n2,
            i <= blocks@.len(),
            origin.len() == r@.len(),
            forall|k: int| 0 <= k < r@.len() ==> (#[trigger] r@[k]).chex.wf() && r@[k].qs@.len() == n2
                && r@[k].chex.nonempty(),
            forall|k: int| 0 <= k < r@.len() ==> {
                let (oi, oe) = #[trigger] origin[k];
                &&& 0 <= oi < i
                &&& 0 <= oe < edges@.len()
                &&& derived(blocks@[oi], edges@[oe], r@[k], into_p)
            },
            forall|k1: int, k2: int| 0 <= k1 < k2 < r@.len() ==> #[trigger] origin[k1] != #[trigger] origin[k2],
            forall|c: char, i2: int| 0 <= i2 < i && #[trigger] blocks@[i2].chex.has(c) ==> block_covered(r@, c),
        decreases blocks@.len() - i,
    {
        let mut e: usize = 0;
        let ghost r_at_i = r@;
        while e < edges.len()
            invariant
                blocks_partition(blocks@),
                edges_partition(edges@),
                forall|e: int| 0 <= e < edges@.len() ==> (#[trigger] edges@[e]).chex.wf(),
                !into_p ==> forall|e: int| 0 <= e < edges@.len() ==> (#[trigger] edges@[e]).to_sid < n2,
                forall|k: int| 0 <= k < blocks@.len() ==> (#[trigger] blocks@[k]).qs@.len() == n2,
                i < blocks@.len(),
                e <= edges@.len(),
                origin.len() == r@.len(),
                r_at_i.len() <= r@.len(),
                forall|k: int| 0 <= k < r_at_i.len() ==> #[trigger] r@[k] == r_at_i[k],
                forall|k: int| 0 <= k < r@.len() ==> (#[trigger] r@[k]).chex.wf() && r@[k].qs@.len() == n2
                    && r@[k].chex.nonempty(),
                forall|k: int| 0 <= k < r@.len() ==> {
                    let (oi, oe) = #[trigger] origin[k];
                    &&& 0 <= oi <= i
                    &&& 0 <= oe < edges@.len()
                    &&& (oi == i ==> oe < e)
                    &&& (k < r_at_i.len() ==> oi < i)
                    &&& (k >= r_at_i.len() ==> oi == i)
                    &&& derived(blocks@[oi], edges@[oe], r@[k], into_p)
                },
                forall|k1: int, k2: int| 0 <= k1 < k2 < r@.len() ==> #[trigger] origin[k1] != #[trigger] origin[k2],
                forall|c: char, i2: int| 0 <= i2 < i && #[trigger] blocks@[i2].chex.has(c) ==> block_covered(r@, c),
                forall|c: char, e2: int| 0 <= e2 < e && blocks@[i as int].chex.has(c) && #[trigger] edges@[e2].chex.has(c)
                    ==> block_covered(r@, c),
            decreases edges@.len() - e,
        {
            let part = blocks[i].chex.intersect(&edges[e].chex);
            if part.inhabited() {
                let nb = if into_p {
                    Block { chex: part, p: edges[e].to_sid, qs: blocks[i].qs.clone() }
                } else {
                    let mut qs = blocks[i].qs.clone();
                    qs.set(edges[e].to_sid, true);
                    Block { chex: part, p: blocks[i].p, qs }
                };
                proof {
                    assert(nb.qs@ =~= if into_p { blocks@[i as int].qs@ } else { blocks@[i as int].qs@.update(edges@[e as int].to_sid as int, true) });
                    assert(derived(blocks@[i as int], edges@[e as int], nb, into_p));
                }
                let ghost old_r = r@;
                let ghost old_origin = origin;
                r.push(nb);
                proof {
                    origin = origin.push((i as int, e as int));
                    assert forall|k1: int, k2: int| 0 <= k1 < k2 < r@.len() implies #[trigger] origin[k1] != #[trigger] origin[k2] by {
                        if k2 == r@.len() - 1 {
                            assert(origin[k2] == (i as int, e as int));
                            assert(old_origin[k1] == origin[k1]);
                        } else {
                            assert(old_origin[k1] != old_origin[k2]);
                        }
                    }
                    assert forall|c: char, i2: int| 0 <= i2 < i && #[trigger] blocks@[i2].chex.has(c) implies block_covered(r@, c) by {
                        assert(block_covered(old_r, c));
                        let k = choose|k: int| 0 <= k < old_r.len() && #[trigger] old_r[k].chex.has(c);
                        assert(r@[k] == old_r[k]);
                    }
                    assert forall|c: char, e2: int| 0 <= e2 < e + 1 && blocks@[i as int].chex.has(c) && #[trigger] edges@[e2].chex.has(c)
                        implies block_covered(r@, c) by {
                        if e2 < e {
                            assert(block_covered(old_r, c));
                            let k = choose|k: int| 0 <= k < old_r.len() && #[trigger] old_r[k].chex.has(c);
                            assert(r@[k] == old_r[k]);
                        } else {
                            assert(r@[r@.len() - 1].chex.has(c));
                        }
                    }
                }
            } else {
                proof {
                    assert forall|c: char, e2: int| 0 <= e2 < e + 1 && blocks@[i as int].chex.has(c) && #[trigger] edges@[e2].chex.has(c)
                        implies block_covered(r@, c) by {
                        if e2 == e {
                            assert(part.has(c));
                        }
                    }
                }
            }
            e += 1;
        }
        proof {
            assert forall|c: char, i2: int| 0 <= i2 < i + 1 && #[trigger] blocks@[i2].chex.has(c) implies block_covered(r@, c) by {
                if i2 == i {
                    assert(covered(edges@, c));
                    let e2 = choose|e2: int| 0 <= e2 < edges@.len() && #[trigger] edges@[e2].chex.has(c);
                }
            }
        }
        i += 1;
    }
    proof {
        assert forall|k: int| 0 <= k < r@.len() implies has_origin(blocks@, edges@, #[trigger] r@[k], into_p) by {
            let (oi, oe) = origin[k];
            assert(0 <= oi < blocks@.len() && 0 <= oe < edges@.len() && derived(blocks@[oi], edges@[oe], r@[k], into_p));
        }
        assert forall|c: char| #[trigger] block_covered(r@, c) by {
            assert(block_covered(blocks@, c));
            let i2 = choose|i2: int| 0 <= i2 < blocks@.len() && #[trigger] blocks@[i2].chex.has(c);
        }
        assert forall|k1: int, k2: int, c: char|
            0 <= k1 < r@.len() && 0 <= k2 < r@.len() && k1 != k2 && #[trigger] r@[k1].chex.has(c)
            implies !#[trigger] r@[k2].chex.has(c) by {
            let (i1, e1) = origin[k1];
            let (i2, e2) = origin[k2];
            if r@[k2].chex.has(c) {
                assert(blocks@[i1].chex.has(c) && edges@[e1].chex.has(c));
                assert(blocks@[i2].chex.has(c) && edges@[e2].chex.has(c));
                if k1 < k2 {
                    assert(origin[k1] != origin[k2]);
                } else {
                    assert(origin[k2] != origin[k1]);
                }
            }
        }
    }
    r
}

/// Which closure a composite construction builds.
#[derive(Debug, Clone, Copy, PartialEq, Eq, Structural)]
pub enum Mode {
    Union,
    Intersect,
    Concat,
    Repeat,
}

/// The most composite states that one construction may create.
pub const STATE_BUDGET: usize = 10000;

/// A construction would have needed more than `STATE_BUDGET` states.
#[derive(Debug, Clone, Copy, PartialEq, Eq, Structural)]
pub struct BudgetExceeded {
    pub limit: usize,
}

/// Some state of `qs` accepts in `m2`.
pub open spec fn any_accepting(m2: &Spex, qs: Seq<bool>) -> bool {
    exists|j: int| 0 <= j < qs.len() && qs[j] && #[trigger] m2.accepts_sids@[j]
}

/// The start of `m2` is entered anew beside the states of `qs`: in a
/// concatenation when `p` accepts in `m1`, in a repetition when `qs` accepts.
pub open spec fn injects(mode: Mode, m1: &Spex, m2: &Spex, p: int, qs: Seq<bool>) -> bool {
    match mode {
        Mode::Concat => m1.accepts_sids@[p],
        Mode::Repeat => any_accepting(m2, qs),
        _ => false,
    }
}

/// Some state among the first `upto` of `qs` goes to `j` on `c`.
pub open spec fn reached(m2: &Spex, qs: Seq<bool>, upto: int, c: char, j: int) -> bool {
    exists|q: int| 0 <= q < upto && qs[q] && #[trigger] m2.step(q, c) == j
}

/// The successors on `c` of the first `upto` states of `qs`.
pub open spec fn partial_qs(m2: &Spex, qs: Seq<bool>, upto: int, c: char) -> Seq<bool> {
    Seq::new(qs.len(), |j: int| reached(m2, qs, upto, c, j))
}

/// The set of states of `m2` that `(p, qs)` leads to on `c`.
pub open spec fn next_qs(mode: Mode, m1: &Spex, m2: &Spex, p: int, qs: Seq<bool>, c: char) -> Seq<bool> {
    let base = partial_qs(m2, qs, qs.len() as int, c);
    if injects(mode, m1, m2, p, qs) {
        base.update(m2.step(0, c), true)
    } else {
        base
    }
}

/// One step of the composite automaton.
pub open spec fn cstep(mode: Mode, m1: &Spex, m2: &Spex, st: (int, Seq<bool>), c: char) -> (int, Seq<bool>) {
    (m1.step(st.0, c), next_qs(mode, m1, m2, st.0, st.1, c))
}

/// The composite state reached from `st` on `w`.
pub open spec fn cwalk(mode: Mode, m1: &Spex, m2: &Spex, st: (int, Seq<bool>), w: Seq<char>) -> (int, Seq<bool>)
    decreases w.len(),
{
    if w.len() == 0 {
        st
    } else {
        cwalk(mode, m1, m2, cstep(mode, m1, m2, st, w[0]), w.drop_first())
    }
}

/// A composite state accepts.
pub open spec fn cacc(mode: Mode, m1: &Spex, m2: &Spex, st: (int, Seq<bool>)) -> bool {
    match mode {
        Mode::Union => m1.accepts_sids@[st.0] || any_accepting(m2, st.1),
        Mode::Intersect => m1.accepts_sids@[st.0] && any_accepting(m2, st.1),
        _ => any_accepting(m2, st.1),
    }
}

/// The start of the composite automaton: the start of `m1` beside the start of
/// `m2`, or beside nothing for a concatenation.
pub open spec fn init_state(mode: Mode, m2: &Spex) -> (int, Seq<bool>) {
    (0, Seq::new(m2.n() as nat, |j: int| mode != Mode::Concat && j == 0))
}

/// The language of the composite automaton.
pub open spec fn closure_accepts(mode: Mode, m1: &Spex, m2: &Spex, w: Seq<char>) -> bool {
    cacc(mode, m1, m2, cwalk(mode, m1, m2, init_state(mode, m2), w))
}

pub open spec fn cview(x: (usize, Vec<bool>)) -> (int, Seq<bool>) {
    (x.0 as int, x.1@)
}

/// `n` times `false`.
fn falses(n: usize) -> (r: Vec<bool>)
    ensures
        r@ == Seq::new(n as nat, |j: int| false),
{
    let mut r: Vec<bool> = Vec::new();
    let mut i: usize = 0;
    while i < n
        invariant
            i <= n,
            r@ == Seq::new(i as nat, |j: int| false),
        decreases n - i,
    {
        r.push(false);
        proof {
            assert(r@ =~= Seq::new((i + 1) as nat, |j: int| false));
        }
        i += 1;
    }
    r
}

fn same_bits(a: &Vec<bool>, b: &Vec<bool>) -> (r: bool)
    ensures
        r == (a@ == b@),
{
    if a.len() != b.len() {
        return false;
    }
    let mut i: usize = 0;
    while i < a.len()
        invariant
            i <= a.len(),
            a@.len() == b@.len(),
            forall|k: int| 0 <= k < i ==> a@[k] == b@[k],
        decreases a.len() - i,
    {
        if a[i] != b[i] {
            return false;
        }
        i += 1;
    }
    assert(a@ =~= b@);
    true
}

fn any_accepting_exec(m2: &Spex, qs: &Vec<bool>) -> (r: bool)
    requires
        m2.wf(),
        qs@.len() == m2.n(),
    ensures
        r == any_accepting(m2, qs@),
{
    let mut j: usize = 0;
    while j < qs.len()
        invariant
            m2.wf(),
            qs@.len() == m2.n(),
            j <= qs.len(),
            forall|k: int| 0 <= k < j ==> !(qs@[k] && #[trigger] m2.accepts_sids@[k]),
        decreases qs.len() - j,
    {
        if qs[j] && m2.accepts_sids[j] {
            return true;
        }
        j += 1;
    }
    false
}

fn find_state(states: &Vec<(usize, Vec<bool>)>, p: usize, qs: &Vec<bool>) -> (r: Option<usize>)
    ensures
        match r {
            Some(k) => k < states@.len() && cview(states@[k as int]) == (p as int, qs@),
            None => forall|k: int| 0 <= k < states@.len() ==> cview(#[trigger] states@[k]) != (p as int, qs@),
        },
{
    let mut k: usize = 0;
    while k < states.len()
        invariant
            k <= states@.len(),
            forall|j: int| 0 <= j < k ==> cview(#[trigger] states@[j]) != (p as int, qs@),
        decreases states.len() - k,
    {
        if states[k].0 == p && same_bits(&states[k].1, qs) {
            return Some(k);
        }
        k += 1;
    }
    None
}

/// Adding state `q` of `qs` to the successors adds its successor on `c`.
proof fn lemma_partial_step(m2: &Spex, qs: Seq<bool>, q: int, c: char)
    requires
        0 <= q < qs.len(),
        0 <= m2.step(q, c) < qs.len(),
    ensures
        partial_qs(m2, qs, q + 1, c) == if qs[q] {
            partial_qs(m2, qs, q, c).update(m2.step(q, c), true)
        } else {
            partial_qs(m2, qs, q, c)
        },
{
    let lhs = partial_qs(m2, qs, q + 1, c);
    let rhs = if qs[q] {
        partial_qs(m2, qs, q, c).update(m2.step(q, c), true)
    } else {
        partial_qs(m2, qs, q, c)
    };
    assert forall|j: int| 0 <= j < qs.len() implies lhs[j] == rhs[j] by {
        if reached(m2, qs, q + 1, c, j) {
            let q2 = choose|q2: int| 0 <= q2 < q + 1 && qs[q2] && #[trigger] m2.step(q2, c) == j;
            if q2 < q {
                assert(reached(m2, qs, q, c, j));
            }
        }
        if reached(m2, qs, q, c, j) {
            let q2 = choose|q2: int| 0 <= q2 < q && qs[q2] && #[trigger] m2.step(q2, c) == j;
            assert(reached(m2, qs, q + 1, c, j));
        }
        if qs[q] && j == m2.step(q, c) {
            assert(reached(m2, qs, q + 1, c, j));
        }
    }
    assert(lhs =~= rhs);
}

/// The partition of the characters that the composite state `(p, qs)` needs,
/// each block with its successor.
fn successors(m1: &Spex, m2: &Spex, mode: Mode, p: usize, qs: &Vec<bool>) -> (r: Vec<Block>)
    requires
        m1.wf(),
        m2.wf(),
        p < m1.n(),
        qs@.len() == m2.n(),
    ensures
        blocks_partition(r@),
        forall|k: int| 0 <= k < r@.len() ==> (#[trigger] r@[k]).qs@.len() == m2.n(),
        forall|k: int| 0 <= k < r@.len() ==> 0 < (#[trigger] r@[k]).p < m1.n(),
        forall|k: int, c: char|
            0 <= k < r@.len() && #[trigger] r@[k].chex.has(c) ==> (r@[k].p as int, r@[k].qs@) == cstep(
                mode,
                m1,
                m2,
                (p as int, qs@),
                c,
            ),
{
    let n2 = m2.tns_dict.len();
    let start = vec![Block { chex: Chex::new_whole(), p: 0, qs: falses(n2) }];
    proof {
        assert forall|c: char| #[trigger] block_covered(start@, c) by {
            assert(start@[0].chex.has(c));
        }
        assert(start@[0].chex.has('a'));
        assert(edges_partition(m1.out(p as int)));
        assert(edges_ok(m1.out(p as int), p as int, m1.n()));
    }
    let mut blocks = refine(&start, &m1.tns_dict[p], true, n2);
    proof {
        assert forall|k: int, c: char| 0 <= k < blocks@.len() && #[trigger] blocks@[k].chex.has(c)
            implies blocks@[k].p == m1.step(p as int, c) && blocks@[k].qs@ == partial_qs(m2, qs@, 0, c) by {
            assert(has_origin(start@, m1.out(p as int), blocks@[k], true));
            let (i, e) = choose|i: int, e: int| 0 <= i < start@.len() && 0 <= e < m1.out(p as int).len()
                && #[trigger] derived(start@[i], m1.out(p as int)[e], blocks@[k], true);
            m1.lemma_step(p as int, e, c);
            assert(blocks@[k].qs@ =~= partial_qs(m2, qs@, 0, c));
        }
        assert forall|k: int| 0 <= k < blocks@.len() implies 0 < (#[trigger] blocks@[k]).p < m1.n() by {
            assert(has_origin(start@, m1.out(p as int), blocks@[k], true));
            let (i, e) = choose|i: int, e: int| 0 <= i < start@.len() && 0 <= e < m1.out(p as int).len()
                && #[trigger] derived(start@[i], m1.out(p as int)[e], blocks@[k], true);
        }
    }
    let mut q: usize = 0;
    while q < n2
        invariant
            m1.wf(),
            m2.wf(),
            p < m1.n(),
            n2 == m2.n(),
            qs@.len() == n2,
            q <= n2,
            blocks_partition(blocks@),
            forall|k: int| 0 <= k < blocks@.len() ==> (#[trigger] blocks@[k]).qs@.len() == n2,
            forall|k: int| 0 <= k < blocks@.len() ==> 0 < (#[trigger] blocks@[k]).p < m1.n(),
            forall|k: int, c: char| 0 <= k < blocks@.len() && #[trigger] blocks@[k].chex.has(c)
                ==> blocks@[k].p == m1.step(p as int, c) && blocks@[k].qs@ == partial_qs(m2, qs@, q as int, c),
        decreases n2 - q,
    {
        if qs[q] {
            proof {
                assert(edges_partition(m2.out(q as int)));
                assert(edges_ok(m2.out(q as int), q as int, m2.n()));
            }
            let next = refine(&blocks, &m2.tns_dict[q], false, n2);
            proof {
                assert forall|k: int, c: char| 0 <= k < next@.len() && #[trigger] next@[k].chex.has(c)
                    implies next@[k].p == m1.step(p as int, c) && next@[k].qs@ == partial_qs(m2, qs@, q + 1, c) by {
                    assert(has_origin(blocks@, m2.out(q as int), next@[k], false));
                    let (i, e) = choose|i: int, e: int| 0 <= i < blocks@.len() && 0 <= e < m2.out(q as int).len()
                        && #[trigger] derived(blocks@[i], m2.out(q as int)[e], next@[k], false);
                    assert(blocks@[i].chex.has(c));
                    m2.lemma_step(q as int, e, c);
                    m2.lemma_step_range(q as int, c);
                    lemma_partial_step(m2, qs@, q as int, c);
                }
                assert forall|k: int| 0 <= k < next@.len() implies 0 < (#[trigger] next@[k]).p < m1.n() by {
                    assert(has_origin(blocks@, m2.out(q as int), next@[k], false));
                    let (i, e) = choose|i: int, e: int| 0 <= i < blocks@.len() && 0 <= e < m2.out(q as int).len()
                        && #[trigger] derived(blocks@[i], m2.out(q as int)[e], next@[k], false);
                }
            }
            blocks = next;
        } else {
            proof {
                assert forall|k: int, c: char| 0 <= k < blocks@.len() && #[trigger] blocks@[k].chex.has(c)
                    implies blocks@[k].qs@ == partial_qs(m2, qs@, q + 1, c) by {
                    m2.lemma_step_range(q as int, c);
                    lemma_partial_step(m2, qs@, q as int, c);
                }
            }
        }
        q += 1;
    }
    let inject = match mode {
        Mode::Concat => m1.accepts_sids[p],
        Mode::Repeat => any_accepting_exec(m2, qs),
        _ => false,
    };
    if inject {
        proof {
            assert(edges_partition(m2.out(0)));
            assert(edges_ok(m2.out(0), 0, m2.n()));
        }
        let next = refine(&blocks, &m2.tns_dict[0], false, n2);
        proof {
            assert forall|k: int, c: char| 0 <= k < next@.len() && #[trigger] next@[k].chex.has(c)
                implies (next@[k].p as int, next@[k].qs@) == cstep(mode, m1, m2, (p as int, qs@), c) by {
                assert(has_origin(blocks@, m2.out(0), next@[k], false));
                let (i, e) = choose|i: int, e: int| 0 <= i < blocks@.len() && 0 <= e < m2.out(0).len()
                    && #[trigger] derived(blocks@[i], m2.out(0)[e], next@[k], false);
                assert(blocks@[i].chex.has(c));
                m2.lemma_step(0, e, c);
            }
            assert forall|k: int| 0 <= k < next@.len() implies 0 < (#[trigger] next@[k]).p < m1.n() by {
                assert(has_origin(blocks@, m2.out(0), next@[k], false));
                let (i, e) = choose|i: int, e: int| 0 <= i < blocks@.len() && 0 <= e < m2.out(0).len()
                    && #[trigger] derived(blocks@[i], m2.out(0)[e], next@[k], false);
            }
        }
        next
    } else {
        blocks
    }
}

/// An edge of a construction in progress: out of `k`, into a state other than
/// the start below `n`, with a well-formed non-empty label.
pub open spec fn edge_fine(t: Transition, k: int, n: int) -> bool {
    &&& t.fr_sid == k
    &&& 0 < t.to_sid < n
    &&& t.chex.wf()
    &&& t.chex.nonempty()
}

/// The start of the composite automaton does not accept.
proof fn lemma_init_rejects(mode: Mode, m1: &Spex, m2: &Spex)
    requires
        m1.wf(),
        m2.wf(),
    ensures
        !cacc(mode, m1, m2, init_state(mode, m2)),
{
    let qs = init_state(mode, m2).1;
    if any_accepting(m2, qs) {
        let j = choose|j: int| 0 <= j < qs.len() && qs[j] && #[trigger] m2.accepts_sids@[j];
        assert(j == 0);
    }
}

/// On an automaton whose edges follow the composite steps, walking follows the
/// composite walk.
proof fn lemma_follows(r: &Spex, views: Seq<(int, Seq<bool>)>, mode: Mode, m1: &Spex, m2: &Spex, k: int, w: Seq<char>)
    requires
        r.graph_wf(),
        views.len() == r.n(),
        0 <= k < r.n(),
        forall|s: int, e: int, c: char|
            0 <= s < r.n() && 0 <= e < r.out(s).len() && #[trigger] r.out(s)[e].chex.has(c)
                ==> views[r.out(s)[e].to_sid as int] == cstep(mode, m1, m2, views[s], c),
    ensures
        views[r.walk(k, w)] == cwalk(mode, m1, m2, views[k], w),
    decreases w.len(),
{
    if w.len() > 0 {
        let c = w[0];
        assert(edges_partition(r.out(k)));
        assert(covered(r.out(k), c));
        let e = choose|e: int| 0 <= e < r.out(k).len() && #[trigger] r.out(k)[e].chex.has(c);
        r.lemma_step(k, e, c);
        r.lemma_step_range(k, c);
        lemma_follows(r, views, mode, m1, m2, r.step(k, c), w.drop_first());
    }
}

/// Builds the composite automaton of `m1` and `m2` for `mode`, creating only
/// the composite states reachable from the start.
pub fn closure_of(m1: &Spex, m2: &Spex, mode: Mode) -> (r: Result<Spex, BudgetExceeded>)
    requires
        m1.wf(),
        m2.wf(),
    ensures
        r matches Ok(m) ==> m.wf() && m.reachable() && forall|w: Seq<char>| m.accepts(w) == closure_accepts(mode, m1, m2, w),
        r matches Ok(m) ==> m.n() <= m1.n() * subsets(m2.n() as nat),
        r matches Ok(m) ==> (is_product(mode) ==> m.n() <= m1.n() * m2.n()),
        r matches Err(e) ==> e.limit == STATE_BUDGET && STATE_BUDGET < m1.n() * subsets(m2.n() as nat),
        r matches Err(e) ==> (is_product(mode) ==> STATE_BUDGET < m1.n() * m2.n()),
{
    let n2 = m2.tns_dict.len();
    let mut init_qs = falses(n2);
    if mode != Mode::Concat {
        init_qs.set(0, true);
    }
    proof {
        assert(init_qs@ =~= init_state(mode, m2).1);
        lemma_init_rejects(mode, m1, m2);
    }
    let mut states: Vec<(usize, Vec<bool>)> = Vec::new();
    states.push((0, init_qs));
    let mut accepts: Vec<bool> = vec![false];
    let mut tns: Vec<Vec<Transition>> = Vec::new();
    let mut sid_gen = SidGen::new();
    let ghost init = init_state(mode, m2);
    let ghost mut wit: Seq<Seq<char>> = seq![Seq::<char>::empty()];
    let mut i: usize = 0;
    while i < states.len()
        invariant
            sid_gen.sid + 1 == states@.len(),
            init == init_state(mode, m2),
            wit.len() == states@.len(),
            forall|k: int| 0 <= k < states@.len() ==> cwalk(mode, m1, m2, init, #[trigger] wit[k]) == cview(states@[k]),
            m1.wf(),
            m2.wf(),
            n2 == m2.n(),
            0 < states@.len() <= STATE_BUDGET,
            i <= states@.len(),
            tns@.len() == i,
            accepts@.len() == states@.len(),
            cview(states@[0]) == init_state(mode, m2),
            forall|k1: int, k2: int| 0 <= k1 < k2 < states@.len() ==> cview(#[trigger] states@[k1]) != cview(#[trigger] states@[k2]),
            forall|k: int| 0 <= k < states@.len() ==> 0 <= (#[trigger] states@[k]).0 < m1.n() && states@[k].1@.len() == n2,
            forall|k: int| 0 < k < states@.len() ==> (#[trigger] states@[k]).0 > 0,
            forall|k: int| 0 <= k < states@.len() ==> #[trigger] accepts@[k] == (k != 0 && cacc(mode, m1, m2, cview(states@[k]))),
            forall|k: int, e: int| 0 <= k < i && 0 <= e < tns@[k]@.len() ==> edge_fine(#[trigger] tns@[k]@[e], k, states@.len() as int),
            forall|k: int| 0 <= k < i ==> edges_partition(#[trigger] tns@[k]@),
            forall|k: int, e: int, c: char|
                0 <= k < i && 0 <= e < tns@[k]@.len() && #[trigger] tns@[k]@[e].chex.has(c)
                    ==> cview(states@[tns@[k]@[e].to_sid as int]) == cstep(mode, m1, m2, cview(states@[k]), c),
        decreases STATE_BUDGET - i,
    {
        let p = states[i].0;
        let blocks = successors(m1, m2, mode, p, &states[i].1);
        let mut edges: Vec<Transition> = Vec::new();
        let mut b: usize = 0;
        while b < blocks.len()
            invariant
                sid_gen.sid + 1 == states@.len(),
                init == init_state(mode, m2),
                wit.len() == states@.len(),
                forall|k: int| 0 <= k < states@.len() ==> cwalk(mode, m1, m2, init, #[trigger] wit[k]) == cview(states@[k]),
                m1.wf(),
                m2.wf(),
                n2 == m2.n(),
                0 < states@.len() <= STATE_BUDGET,
                i < states@.len(),
                p == states@[i as int].0,
                tns@.len() == i,
                accepts@.len() == states@.len(),
                cview(states@[0]) == init_state(mode, m2),
                forall|k1: int, k2: int| 0 <= k1 < k2 < states@.len() ==> cview(#[trigger] states@[k1]) != cview(#[trigger] states@[k2]),
                forall|k: int| 0 <= k < states@.len() ==> 0 <= (#[trigger] states@[k]).0 < m1.n() && states@[k].1@.len() == n2,
                forall|k: int| 0 < k < states@.len() ==> (#[trigger] states@[k]).0 > 0,
                forall|k: int| 0 <= k < states@.len() ==> #[trigger] accepts@[k] == (k != 0 && cacc(mode, m1, m2, cview(states@[k]))),
                forall|k: int, e: int| 0 <= k < i && 0 <= e < tns@[k]@.len() ==> edge_fine(#[trigger] tns@[k]@[e], k, states@.len() as int),
                forall|k: int| 0 <= k < i ==> edges_partition(#[trigger] tns@[k]@),
                forall|k: int, e: int, c: char|
                    0 <= k < i && 0 <= e < tns@[k]@.len() && #[trigger] tns@[k]@[e].chex.has(c)
                        ==> cview(states@[tns@[k]@[e].to_sid as int]) == cstep(mode, m1, m2, cview(states@[k]), c),
                blocks_partition(blocks@),
                forall|k: int| 0 <= k < blocks@.len() ==> (#[trigger] blocks@[k]).qs@.len() == n2,
                forall|k: int| 0 <= k < blocks@.len() ==> 0 < (#[trigger] blocks@[k]).p < m1.n(),
                forall|k: int, c: char|
                    0 <= k < blocks@.len() && #[trigger] blocks@[k].chex.has(c) ==> (blocks@[k].p as int, blocks@[k].qs@)
                        == cstep(mode, m1, m2, cview(states@[i as int]), c),
                b <= blocks@.len(),
                edges@.len() == b,
                forall|e: int| 0 <= e < b ==> edge_fine(#[trigger] edges@[e], i as int, states@.len() as int),
                forall|e: int, c: char| 0 <= e < b ==> (#[trigger] edges@[e].chex.has(c) <==> blocks@[e].chex.has(c)),
                forall|e: int, c: char|
                    0 <= e < b && #[trigger] edges@[e].chex.has(c)
                        ==> cview(states@[edges@[e].to_sid as int]) == cstep(mode, m1, m2, cview(states@[i as int]), c),
            decreases blocks@.len() - b,
        {
            let nb = &blocks[b];
            proof {
                assert(0 < blocks@[b as int].p < m1.n());
                assert(nb.chex.nonempty());
            }
            let found = find_state(&states, nb.p, &nb.qs);
            let id = match found {
                Some(k) => k,
                None => {
                    let ghost c = choose|c: char| blocks@[b as int].chex.has(c);
                    let ghost nw = wit[i as int].push(c);
                    proof {
                        assert(blocks@[b as int].chex.nonempty());
                        lemma_cwalk_push(mode, m1, m2, init, wit[i as int], c);
                        assert(cwalk(mode, m1, m2, init, nw) == (nb.p as int, nb.qs@));
                    }
                    if states.len() >= STATE_BUDGET {
                        proof {
                            let sts = states@.map_values(|x: (usize, Vec<bool>)| cview(x)).push((nb.p as int, nb.qs@));
                            if is_product(mode) {
                                assert forall|k: int| 0 <= k < sts.len() implies #[trigger] pair_form(sts[k], m1.n(), m2.n()) by {
                                    if k < states@.len() {
                                        assert(sts[k] == cview(states@[k]));
                                        lemma_product_form(mode, m1, m2, wit[k]);
                                    } else {
                                        lemma_product_form(mode, m1, m2, nw);
                                    }
                                }
                            }
                            assert forall|k1: int, k2: int| 0 <= k1 < k2 < sts.len() implies #[trigger] sts[k1] != #[trigger] sts[k2] by {
                                if k2 == sts.len() - 1 {
                                    assert(cview(states@[k1]) != (nb.p as int, nb.qs@));
                                } else {
                                    assert(cview(states@[k1]) != cview(states@[k2]));
                                }
                            }
                            assert forall|k: int| 0 <= k < sts.len() implies 0 <= (#[trigger] sts[k]).0 < m1.n() && sts[k].1.len() == n2 by {
                                if k < states@.len() {
                                    assert(sts[k] == cview(states@[k]));
                                }
                            }
                            lemma_count_composites(sts, m1.n() as nat, n2 as nat);
                            if is_product(mode) {
                                lemma_count_pairs(sts, m1.n() as nat, n2 as nat);
                            }
                        }
                        return Err(BudgetExceeded { limit: STATE_BUDGET });
                    }
                    let acc = match mode {
                        Mode::Union => m1.accepts_sids[nb.p] || any_accepting_exec(m2, &nb.qs),
                        Mode::Intersect => m1.accepts_sids[nb.p] && any_accepting_exec(m2, &nb.qs),
                        _ => any_accepting_exec(m2, &nb.qs),
                    };
                    let id = sid_gen.get();
                    states.push((nb.p, nb.qs.clone()));
                    accepts.push(acc);
                    proof {
                        wit = wit.push(nw);
                    }
                    id
                },
            };
            edges.push(Transition::new(i, id, nb.chex.duplicate()));
            b += 1;
        }
        proof {
            assert forall|c: char| #[trigger] covered(edges@, c) by {
                assert(block_covered(blocks@, c));
                let k = choose|k: int| 0 <= k < blocks@.len() && #[trigger] blocks@[k].chex.has(c);
                assert(edges@[k].chex.has(c));
            }
        }
        tns.push(edges);
        i += 1;
    }
    let ghost views = states@.map_values(|x: (usize, Vec<bool>)| cview(x));
    proof {
        let g = Spex { accepts_sids: accepts, tns_dict: tns, kind: crate::spex::Kind::Other };
        assert forall|k: int| 0 <= k < g.n() implies edges_ok(#[trigger] g.out(k), k, g.n()) && edges_partition(g.out(k)) by {
            assert forall|e: int| 0 <= e < g.out(k).len() implies #[trigger] g.out(k)[e] == g.out(k)[e] by {
                assert(edge_fine(tns@[k]@[e], k, states@.len() as int));
            }
        }
    }
    let m = Spex::new(tns, accepts);
    proof {
        assert forall|w: Seq<char>| m.accepts(w) == closure_accepts(mode, m1, m2, w) by {
            assert forall|s: int, e: int, c: char|
                0 <= s < m.n() && 0 <= e < m.out(s).len() && #[trigger] m.out(s)[e].chex.has(c)
                implies views[m.out(s)[e].to_sid as int] == cstep(mode, m1, m2, views[s], c) by {
                assert(edge_fine(m.out(s)[e], s, m.n()));
            }
            lemma_follows(&m, views, mode, m1, m2, 0, w);
            m.lemma_walk_range(0, w);
            lemma_init_rejects(mode, m1, m2);
        }
        assert forall|s: int| 0 <= s < m.n() implies #[trigger] m.reached(s) by {
            lemma_follows(&m, views, mode, m1, m2, 0, wit[s]);
            m.lemma_walk_range(0, wit[s]);
            let t = m.walk(0, wit[s]);
            assert(views[t] == views[s]);
            if t != s {
                if t < s {
                    assert(cview(states@[t]) != cview(states@[s]));
                } else {
                    assert(cview(states@[s]) != cview(states@[t]));
                }
            }
        }
        assert forall|k1: int, k2: int| 0 <= k1 < k2 < views.len() implies #[trigger] views[k1] != #[trigger] views[k2] by {
            assert(cview(states@[k1]) != cview(states@[k2]));
        }
        lemma_count_composites(views, m1.n() as nat, n2 as nat);
        if is_product(mode) {
            assert forall|k: int| 0 <= k < views.len() implies #[trigger] pair_form(views[k], m1.n(), m2.n()) by {
                lemma_product_form(mode, m1, m2, wit[k]);
            }
            lemma_count_pairs(views, m1.n() as nat, n2 as nat);
        }
    }
    Ok(m)
}

/// The set holding `q` alone, among `n` states.
pub open spec fn single(n: int, q: int) -> Seq<bool> {
    Seq::new(n as nat, |j: int| j == q)
}

/// In a product, the composite walk is the pair of the two walks.
proof fn lemma_product_walk(mode: Mode, m1: &Spex, m2: &Spex, p: int, q: int, w: Seq<char>)
    requires
        m1.wf(),
        m2.wf(),
        mode == Mode::Union || mode == Mode::Intersect,
        0 <= p < m1.n(),
        0 <= q < m2.n(),
    ensures
        cwalk(mode, m1, m2, (p, single(m2.n(), q)), w) == (m1.walk(p, w), single(m2.n(), m2.walk(q, w))),
    decreases w.len(),
{
    if w.len() > 0 {
        let c = w[0];
        let n2 = m2.n();
        m1.lemma_step_range(p, c);
        m2.lemma_step_range(q, c);
        let nq = next_qs(mode, m1, m2, p, single(n2, q), c);
        assert forall|j: int| 0 <= j < n2 implies nq[j] == (j == m2.step(q, c)) by {
            if reached(m2, single(n2, q), n2, c, j) {
                let q2 = choose|q2: int| 0 <= q2 < n2 && single(n2, q)[q2] && #[trigger] m2.step(q2, c) == j;
            }
            if j == m2.step(q, c) {
                assert(single(n2, q)[q]);
                assert(reached(m2, single(n2, q), n2, c, j));
            }
        }
        assert(nq =~= single(n2, m2.step(q, c)));
        lemma_product_walk(mode, m1, m2, m1.step(p, c), m2.step(q, c), w.drop_first());
    }
}

/// The languages of the product constructions.
proof fn lemma_product_accepts(mode: Mode, m1: &Spex, m2: &Spex, w: Seq<char>)
    requires
        m1.wf(),
        m2.wf(),
        mode == Mode::Union || mode == Mode::Intersect,
    ensures
        mode == Mode::Union ==> (closure_accepts(mode, m1, m2, w) <==> (m1.accepts(w) || m2.accepts(w))),
        mode == Mode::Intersect ==> (closure_accepts(mode, m1, m2, w) <==> (m1.accepts(w) && m2.accepts(w))),
{
    let n2 = m2.n();
    assert(init_state(mode, m2) == (0int, single(n2, 0)));
    lemma_product_walk(mode, m1, m2, 0, 0, w);
    m2.lemma_walk_range(0, w);
    let t = m2.walk(0, w);
    if any_accepting(m2, single(n2, t)) {
        let j = choose|j: int| 0 <= j < n2 && single(n2, t)[j] && #[trigger] m2.accepts_sids@[j];
    }
    if m2.accepts_sids@[t] {
        assert(single(n2, t)[t]);
    }
}

impl Spex {
    /// The union of the languages; the product construction unless a kind decides.
    pub fn union(&self, other: &Self) -> (r: Result<Spex, BudgetExceeded>)
        requires
            self.wf(),
            other.wf(),
        ensures
            r matches Ok(m) ==> m.wf() && is_union_of(&m, self, other),
            r matches Ok(m) ==> m.n() <= self.n() * other.n(),
            r matches Ok(m) ==> (self.reachable() && other.reachable() ==> m.reachable()),
            r matches Err(e) ==> e.limit == STATE_BUDGET && STATE_BUDGET < self.n() * other.n(),
            (self.kind != crate::spex::Kind::Other || other.kind != crate::spex::Kind::Other) ==> r is Ok,
            self.kind == crate::spex::Kind::Whole ==> (r matches Ok(m) && m.kind == crate::spex::Kind::Whole),
    {
        proof {
            lemma_size_product(self.n(), other.n());
        }
        if self.blank() || other.whole() {
            return Ok(other.duplicate());
        }
        if self.whole() || other.blank() {
            return Ok(self.duplicate());
        }
        Self::calc_and_or(self, other, 0)
    }

    /// The intersection of the languages; the product construction unless a kind decides.
    pub fn intersect(&self, other: &Self) -> (r: Result<Spex, BudgetExceeded>)
        requires
            self.wf(),
            other.wf(),
        ensures
            r matches Ok(m) ==> m.wf() && is_intersection_of(&m, self, other),
            r matches Ok(m) ==> m.n() <= self.n() * other.n(),
            r matches Ok(m) ==> (self.reachable() && other.reachable() ==> m.reachable()),
            r matches Err(e) ==> e.limit == STATE_BUDGET && STATE_BUDGET < self.n() * other.n(),
            (self.kind != crate::spex::Kind::Other || other.kind != crate::spex::Kind::Other) ==> r is Ok,
            (self.kind == crate::spex::Kind::Blank || other.kind == crate::spex::Kind::Blank) ==> (r matches Ok(m) && m.kind == crate::spex::Kind::Blank),
    {
        proof {
            lemma_size_product(self.n(), other.n());
        }
        if self.blank() || other.whole() {
            return Ok(self.duplicate());
        }
        if self.whole() || other.blank() {
            return Ok(other.duplicate());
        }
        Self::calc_and_or(self, other, 1)
    }

    /// The product construction: the union (`ope_kind` 0) or the
    /// intersection (otherwise) of the languages.
    pub fn calc_and_or(spex1: &Self, spex2: &Self, ope_kind: usize) -> (r: Result<Spex, BudgetExceeded>)
        requires
            spex1.wf(),
            spex2.wf(),
        ensures
            r matches Ok(m) ==> m.wf() && if ope_kind == 0 {
                is_union_of(&m, spex1, spex2)
            } else {
                is_intersection_of(&m, spex1, spex2)
            },
            r matches Ok(m) ==> m.reachable() && m.n() <= spex1.n() * spex2.n(),
            r matches Err(e) ==> e.limit == STATE_BUDGET && STATE_BUDGET < spex1.n() * spex2.n(),
    {
        let mode = if ope_kind == 0 {
            Mode::Union
        } else {
            Mode::Intersect
        };
        let r = closure_of(spex1, spex2, mode);
        proof {
            assert forall|w: Seq<char>| #[trigger] closure_accepts(mode, spex1, spex2, w) == if ope_kind == 0 {
                spex1.accepts(w) || spex2.accepts(w)
            } else {
                spex1.accepts(w) && spex2.accepts(w)
            } by {
                lemma_product_accepts(mode, spex1, spex2, w);
            }
        }
        r
    }
}

impl Spex {
    /// The concatenation: a subset construction over `spex2` run beside `spex1`.
    pub fn calc_concat(spex1: &Self, spex2: &Self) -> (r: Result<Spex, BudgetExceeded>)
        requires
            spex1.wf(),
            spex2.wf(),
        ensures
            r matches Ok(m) ==> m.wf() && m.reachable() && is_concat_of(&m, spex1, spex2),
            r matches Ok(m) ==> m.n() <= spex1.n() * subsets(spex2.n() as nat),
            r matches Err(e) ==> e.limit == STATE_BUDGET && STATE_BUDGET < spex1.n() * subsets(spex2.n() as nat),
    {
        let r = closure_of(spex1, spex2, Mode::Concat);
        proof {
            assert forall|w: Seq<char>| #[trigger] closure_accepts(Mode::Concat, spex1, spex2, w) == concat_lang(spex1, spex2, w) by {
                lemma_concat_lang(spex1, spex2, w);
            }
        }
        r
    }

    /// One or more repetitions: a subset construction over `spex` whose
    /// accepting states also restart it, run beside the automaton of every
    /// non-empty string.
    pub fn calc_repeat(spex: &Self) -> (r: Result<Spex, BudgetExceeded>)
        requires
            spex.wf(),
        ensures
            r matches Ok(m) ==> m.wf() && m.reachable() && is_repeat_of(&m, spex),
            r matches Ok(m) ==> m.n() <= 2 * subsets(spex.n() as nat),
            r matches Err(e) ==> e.limit == STATE_BUDGET && STATE_BUDGET < 2 * subsets(spex.n() as nat),
    {
        let driver = Spex::buid_whole();
        let r = closure_of(&driver, spex, Mode::Repeat);
        proof {
            assert forall|w: Seq<char>| #[trigger] closure_accepts(Mode::Repeat, &driver, spex, w) == plus_lang(spex, w) by {
                assert(init_state(Mode::Repeat, spex).1 =~= single(spex.n(), 0));
                lemma_repeat_walk(&driver, spex, init_state(Mode::Repeat, spex), w);
                lemma_plus_lang(spex, w);
            }
        }
        r
    }

    /// The concatenation of the languages.
    pub fn concat(&self, other: &Self) -> (r: Result<Spex, BudgetExceeded>)
        requires
            self.wf(),
            other.wf(),
        ensures
            r matches Ok(m) ==> m.wf() && m.reachable() && is_concat_of(&m, self, other),
            r matches Ok(m) ==> m.n() <= self.n() * subsets(other.n() as nat),
            r matches Err(e) ==> e.limit == STATE_BUDGET && STATE_BUDGET < self.n() * subsets(other.n() as nat),
    {
        Self::calc_concat(self, other)
    }

    /// One or more repetitions of the language.
    pub fn repeat(&self) -> (r: Result<Spex, BudgetExceeded>)
        requires
            self.wf(),
        ensures
            r matches Ok(m) ==> m.wf() && m.reachable() && is_repeat_of(&m, self),
            r matches Ok(m) ==> m.n() <= 2 * subsets(self.n() as nat),
            r matches Err(e) ==> e.limit == STATE_BUDGET && STATE_BUDGET < 2 * subsets(self.n() as nat),
    {
        Self::calc_repeat(self)
    }

    /// The language of `other` lies within that of `self`: decided by the
    /// kinds, or else by the emptiness of `other` minus `self`.
    pub fn includes(&self, other: &Self) -> (r: Result<bool, BudgetExceeded>)
        requires
            self.wf(),
            other.wf(),
        ensures
            r matches Ok(b) ==> b == lang_within(other, self),
            r matches Err(e) ==> e.limit == STATE_BUDGET && STATE_BUDGET < self.n() * other.n(),
    {
        if other.blank() {
            proof {
                assert forall|w: Seq<char>| #[trigger] other.accepts(w) implies self.accepts(w) by {
                    other.lemma_kind(w);
                }
            }
            return Ok(true);
        }
        if self.whole() {
            proof {
                assert forall|w: Seq<char>| #[trigger] other.accepts(w) implies self.accepts(w) by {
                    other.lemma_walk_range(0, w);
                }
            }
            return Ok(true);
        }
        let rest = match self.complement().intersect(other) {
            Ok(m) => m,
            Err(e) => return Err(e),
        };
        let r = rest.accepts_nothing();
        proof {
            assert forall|w: Seq<char>| #[trigger] rest.accepts(w) <==> (other.accepts(w) && !self.accepts(w)) by {
                other.lemma_walk_range(0, w);
            }
            if !r {
                let w = choose|w: Seq<char>| #[trigger] rest.accepts(w);
                assert(other.accepts(w) && !self.accepts(w));
            } else {
                assert forall|w: Seq<char>| #[trigger] other.accepts(w) implies self.accepts(w) by {
                    assert(!rest.accepts(w));
                }
            }
        }
        Ok(r)
    }

    /// The two languages are equal: each lies within the other.
    pub fn same_language(&self, other: &Self) -> (r: Result<bool, BudgetExceeded>)
        requires
            self.wf(),
            other.wf(),
        ensures
            r matches Ok(b) ==> b == same_lang(self, other),
            r matches Err(e) ==> e.limit == STATE_BUDGET && STATE_BUDGET < self.n() * other.n(),
    {
        if self.kind != crate::spex::Kind::Other && self.kind == other.kind {
            proof {
                assert forall|w: Seq<char>| #[trigger] self.accepts(w) <==> other.accepts(w) by {
                    self.lemma_kind(w);
                    other.lemma_kind(w);
                }
            }
            return Ok(true);
        }
        let a = match self.includes(other) {
            Ok(b) => b,
            Err(e) => return Err(e),
        };
        if !a {
            proof {
                let w = choose|w: Seq<char>| !(#[trigger] other.accepts(w) ==> self.accepts(w));
                assert(!(self.accepts(w) <==> other.accepts(w)));
            }
            return Ok(false);
        }
        let b = other.includes(self);
        proof {
            if b matches Ok(false) {
                let w = choose|w: Seq<char>| !(#[trigger] self.accepts(w) ==> other.accepts(w));
                assert(!(self.accepts(w) <==> other.accepts(w)));
            }
        }
        b
    }
}

/// The subset construction of a repetition: the states of `m` reached on `w`
/// from the set `qs`, where an accepting set also restarts `m`.
pub open spec fn rwalk(m: &Spex, qs: Seq<bool>, w: Seq<char>) -> Seq<bool>
    decreases w.len(),
{
    if w.len() == 0 {
        qs
    } else {
        rwalk(m, next_qs(Mode::Repeat, m, m, 0, qs, w[0]), w.drop_first())
    }
}

/// The language that the repetition construction accepts.
pub open spec fn repeat_accepts(m: &Spex, w: Seq<char>) -> bool {
    any_accepting(m, rwalk(m, single(m.n(), 0), w))
}

/// In a repetition the first automaton plays no part in the set of states.
proof fn lemma_repeat_walk(m1: &Spex, m: &Spex, st: (int, Seq<bool>), w: Seq<char>)
    ensures
        cwalk(Mode::Repeat, m1, m, st, w).1 == rwalk(m, st.1, w),
    decreases w.len(),
{
    if w.len() > 0 {
        let c = w[0];
        assert(next_qs(Mode::Repeat, m1, m, st.0, st.1, c) == next_qs(Mode::Repeat, m, m, 0, st.1, c));
        lemma_repeat_walk(m1, m, cstep(Mode::Repeat, m1, m, st, c), w.drop_first());
    }
}

/// `m` accepts exactly the concatenations of a string of `a` and one of `b`.
pub open spec fn is_concat_of(m: &Spex, a: &Spex, b: &Spex) -> bool {
    forall|w: Seq<char>| #[trigger] m.accepts(w) == concat_lang(a, b, w)
}

/// `m` accepts exactly the concatenations of one or more strings of `a`.
pub open spec fn is_repeat_of(m: &Spex, a: &Spex) -> bool {
    forall|w: Seq<char>| #[trigger] m.accepts(w) == plus_lang(a, w)
}

/// The concatenation of the languages: `w` splits into a string of `a`
/// followed by a string of `b`.
pub open spec fn concat_lang(a: &Spex, b: &Spex, w: Seq<char>) -> bool {
    exists|i: int| 0 <= i <= w.len() && a.accepts(w.subrange(0, i)) && #[trigger] b.accepts(w.subrange(i, w.len() as int))
}

/// The states of `b` that the concatenation holds after `w`: one for each
/// proper prefix of `w` that `a` accepts, walked on the rest of `w`.
pub open spec fn concat_q(a: &Spex, b: &Spex, w: Seq<char>) -> Seq<bool> {
    Seq::new(b.n() as nat, |j: int| exists|i: int| 0 <= i < w.len() && a.accepts(w.subrange(0, i))
        && #[trigger] b.walk(0, w.subrange(i, w.len() as int)) == j)
}

/// Walking `w` then `c` in the composite automaton.
proof fn lemma_cwalk_push(mode: Mode, m1: &Spex, m2: &Spex, st: (int, Seq<bool>), w: Seq<char>, c: char)
    ensures
        cwalk(mode, m1, m2, st, w.push(c)) == cstep(mode, m1, m2, cwalk(mode, m1, m2, st, w), c),
    decreases w.len(),
{
    if w.len() == 0 {
        assert(w.push(c).drop_first() =~= Seq::<char>::empty());
        assert(w.push(c)[0] == c);
        let next = cstep(mode, m1, m2, st, c);
        assert(cwalk(mode, m1, m2, next, Seq::<char>::empty()) == next);
    } else {
        assert(w.push(c).drop_first() =~= w.drop_first().push(c));
        assert(w.push(c)[0] == w[0]);
        lemma_cwalk_push(mode, m1, m2, cstep(mode, m1, m2, st, w[0]), w.drop_first(), c);
    }
}

/// The composite walk of a concatenation.
proof fn lemma_concat_walk(a: &Spex, b: &Spex, w: Seq<char>)
    requires
        a.wf(),
        b.wf(),
    ensures
        cwalk(Mode::Concat, a, b, init_state(Mode::Concat, b), w) == (a.walk(0, w), concat_q(a, b, w)),
    decreases w.len(),
{
    if w.len() == 0 {
        assert(init_state(Mode::Concat, b).1 =~= concat_q(a, b, w));
    } else {
        let u = w.drop_last();
        let c = w.last();
        assert(u.push(c) =~= w);
        lemma_concat_walk(a, b, u);
        lemma_cwalk_push(Mode::Concat, a, b, init_state(Mode::Concat, b), u, c);
        a.lemma_walk_push(0, u, c);
        a.lemma_walk_range(0, u);
        let q = concat_q(a, b, u);
        let nq = next_qs(Mode::Concat, a, b, a.walk(0, u), q, c);
        let want = concat_q(a, b, w);
        b.lemma_step_range(0, c);
        assert(u.subrange(0, u.len() as int) =~= u);
        assert forall|j: int| 0 <= j < b.n() implies nq[j] == want[j] by {
            if want[j] {
                let i = choose|i: int| 0 <= i < w.len() && a.accepts(w.subrange(0, i))
                    && #[trigger] b.walk(0, w.subrange(i, w.len() as int)) == j;
                if i < u.len() {
                    let v = u.subrange(i, u.len() as int);
                    assert(w.subrange(i, w.len() as int) =~= v.push(c));
                    assert(w.subrange(0, i) =~= u.subrange(0, i));
                    b.lemma_walk_push(0, v, c);
                    b.lemma_walk_range(0, v);
                    let qq = b.walk(0, v);
                    assert(q[qq]);
                    assert(reached(b, q, q.len() as int, c, j));
                } else {
                    assert(w.subrange(0, i) =~= u);
                    assert(w.subrange(i, w.len() as int) =~= seq![c]);
                    b.lemma_walk_push(0, Seq::<char>::empty(), c);
                    assert(Seq::<char>::empty().push(c) =~= seq![c]);
                }
            }
            if nq[j] {
                if reached(b, q, q.len() as int, c, j) {
                    let qq = choose|qq: int| 0 <= qq < q.len() && q[qq] && #[trigger] b.step(qq, c) == j;
                    let i = choose|i: int| 0 <= i < u.len() && a.accepts(u.subrange(0, i))
                        && #[trigger] b.walk(0, u.subrange(i, u.len() as int)) == qq;
                    let v = u.subrange(i, u.len() as int);
                    assert(w.subrange(i, w.len() as int) =~= v.push(c));
                    assert(w.subrange(0, i) =~= u.subrange(0, i));
                    b.lemma_walk_push(0, v, c);
                    assert(b.walk(0, w.subrange(i, w.len() as int)) == j);
                } else {
                    let i = u.len() as int;
                    assert(w.subrange(0, i) =~= u);
                    assert(w.subrange(i, w.len() as int) =~= seq![c]);
                    b.lemma_walk_push(0, Seq::<char>::empty(), c);
                    assert(Seq::<char>::empty().push(c) =~= seq![c]);
                    assert(b.walk(0, w.subrange(i, w.len() as int)) == j);
                }
            }
        }
        assert(nq =~= want);
    }
}

/// The concatenation construction accepts the concatenation of the languages.
pub proof fn lemma_concat_lang(a: &Spex, b: &Spex, w: Seq<char>)
    requires
        a.wf(),
        b.wf(),
    ensures
        closure_accepts(Mode::Concat, a, b, w) <==> concat_lang(a, b, w),
{
    lemma_concat_walk(a, b, w);
    let q = concat_q(a, b, w);
    if any_accepting(b, q) {
        let j = choose|j: int| 0 <= j < q.len() && q[j] && #[trigger] b.accepts_sids@[j];
        let i = choose|i: int| 0 <= i < w.len() && a.accepts(w.subrange(0, i))
            && #[trigger] b.walk(0, w.subrange(i, w.len() as int)) == j;
        assert(b.accepts(w.subrange(i, w.len() as int)));
    }
    if concat_lang(a, b, w) {
        let i = choose|i: int| 0 <= i <= w.len() && a.accepts(w.subrange(0, i)) && #[trigger] b.accepts(w.subrange(i, w.len() as int));
        if i == w.len() {
            assert(w.subrange(i, w.len() as int) =~= Seq::<char>::empty());
        }
        let v = w.subrange(i, w.len() as int);
        b.lemma_walk_range(0, v);
        let j = b.walk(0, v);
        assert(q[j]);
    }
}

/// One or more strings of `a`, concatenated: a string of `a`, or such a
/// concatenation followed by a string of `a`.
pub open spec fn plus_lang(a: &Spex, w: Seq<char>) -> bool
    decreases w.len(), w.len() + 1,
{
    a.accepts(w) || plus_split(a, w, w.len() as int)
}

/// Some cut `0 < k < i` of `w` leaves a concatenation of one or more strings of
/// `a` before it and a string of `a` after it.
pub open spec fn plus_split(a: &Spex, w: Seq<char>, i: int) -> bool
    decreases w.len(), i,
{
    if i <= 1 || i > w.len() {
        false
    } else {
        (plus_lang(a, w.subrange(0, i - 1)) && a.accepts(w.subrange(i - 1, w.len() as int))) || plus_split(a, w, i - 1)
    }
}

/// The cut of `plus_split` as an existential.
proof fn lemma_plus_split(a: &Spex, w: Seq<char>, i: int)
    requires
        0 <= i <= w.len(),
    ensures
        plus_split(a, w, i) <==> exists|k: int| 0 < k < i && #[trigger] plus_lang(a, w.subrange(0, k)) && a.accepts(w.subrange(k, w.len() as int)),
    decreases i,
{
    if i > 1 {
        lemma_plus_split(a, w, i - 1);
        if exists|k: int| 0 < k < i && #[trigger] plus_lang(a, w.subrange(0, k)) && a.accepts(w.subrange(k, w.len() as int)) {
            let k = choose|k: int| 0 < k < i && #[trigger] plus_lang(a, w.subrange(0, k)) && a.accepts(w.subrange(k, w.len() as int));
            if k < i - 1 {
                assert(exists|k2: int| 0 < k2 < i - 1 && #[trigger] plus_lang(a, w.subrange(0, k2)) && a.accepts(w.subrange(k2, w.len() as int)));
            }
        }
        if plus_split(a, w, i - 1) {
            let k = choose|k: int| 0 < k < i - 1 && #[trigger] plus_lang(a, w.subrange(0, k)) && a.accepts(w.subrange(k, w.len() as int));
            assert(0 < k < i);
        }
        if plus_lang(a, w.subrange(0, i - 1)) && a.accepts(w.subrange(i - 1, w.len() as int)) {
            assert(0 < i - 1 < i);
        }
    }
}

/// One or more strings of `a`: a string of `a`, or a cut with one or more
/// before it and one after it.
pub proof fn lemma_plus_unfold(a: &Spex, w: Seq<char>)
    ensures
        plus_lang(a, w) <==> (a.accepts(w) || exists|k: int| 0 < k < w.len() && #[trigger] plus_lang(a, w.subrange(0, k))
            && a.accepts(w.subrange(k, w.len() as int))),
{
    lemma_plus_split(a, w, w.len() as int);
}

/// The states that the repetition holds after `w`: the walk of `w` itself,
/// and the walk of each rest of `w` after a proper prefix in the repetition.
pub open spec fn plus_q(a: &Spex, w: Seq<char>) -> Seq<bool> {
    Seq::new(a.n() as nat, |j: int| a.walk(0, w) == j || exists|i: int| 0 < i < w.len()
        && plus_lang(a, w.subrange(0, i)) && #[trigger] a.walk(0, w.subrange(i, w.len() as int)) == j)
}

/// The subset walk of a repetition.
proof fn lemma_plus_walk(a: &Spex, w: Seq<char>)
    requires
        a.wf(),
    ensures
        rwalk(a, single(a.n(), 0), w) == plus_q(a, w),
        any_accepting(a, plus_q(a, w)) <==> plus_lang(a, w),
    decreases w.len(),
{
    let n = a.n();
    if w.len() == 0 {
        assert(single(n, 0) =~= plus_q(a, w));
    } else {
        let u = w.drop_last();
        let c = w.last();
        assert(u.push(c) =~= w);
        lemma_plus_walk(a, u);
        lemma_rwalk_push(a, single(n, 0), u, c);
        a.lemma_walk_push(0, u, c);
        a.lemma_walk_range(0, u);
        a.lemma_step_range(0, c);
        let q = plus_q(a, u);
        let nq = next_qs(Mode::Repeat, a, a, 0, q, c);
        let want = plus_q(a, w);
        assert forall|j: int| 0 <= j < n implies nq[j] == want[j] by {
            if want[j] {
                if a.walk(0, w) == j {
                    assert(q[a.walk(0, u)]);
                    assert(reached(a, q, q.len() as int, c, j));
                } else {
                    let i = choose|i: int| 0 < i < w.len() && plus_lang(a, w.subrange(0, i))
                        && #[trigger] a.walk(0, w.subrange(i, w.len() as int)) == j;
                    if i < u.len() {
                        let v = u.subrange(i, u.len() as int);
                        assert(w.subrange(i, w.len() as int) =~= v.push(c));
                        assert(w.subrange(0, i) =~= u.subrange(0, i));
                        a.lemma_walk_push(0, v, c);
                        a.lemma_walk_range(0, v);
                        assert(q[a.walk(0, v)]);
                        assert(reached(a, q, q.len() as int, c, j));
                    } else {
                        assert(w.subrange(0, i) =~= u);
                        assert(w.subrange(i, w.len() as int) =~= seq![c]);
                        a.lemma_walk_push(0, Seq::<char>::empty(), c);
                        assert(Seq::<char>::empty().push(c) =~= seq![c]);
                    }
                }
            }
            if nq[j] {
                if reached(a, q, q.len() as int, c, j) {
                    let qq = choose|qq: int| 0 <= qq < q.len() && q[qq] && #[trigger] a.step(qq, c) == j;
                    if a.walk(0, u) == qq {
                        assert(a.walk(0, w) == j);
                    } else {
                        let i = choose|i: int| 0 < i < u.len() && plus_lang(a, u.subrange(0, i))
                            && #[trigger] a.walk(0, u.subrange(i, u.len() as int)) == qq;
                        let v = u.subrange(i, u.len() as int);
                        assert(w.subrange(i, w.len() as int) =~= v.push(c));
                        assert(w.subrange(0, i) =~= u.subrange(0, i));
                        a.lemma_walk_push(0, v, c);
                        assert(a.walk(0, w.subrange(i, w.len() as int)) == j);
                    }
                } else {
                    let i = u.len() as int;
                    assert(plus_lang(a, u));
                    if u.len() == 0 {
                        assert(u =~= Seq::<char>::empty());
                        assert(!a.accepts(u));
                        assert(!plus_split(a, u, 0));
                    }
                    assert(w.subrange(0, i) =~= u);
                    assert(w.subrange(i, w.len() as int) =~= seq![c]);
                    a.lemma_walk_push(0, Seq::<char>::empty(), c);
                    assert(Seq::<char>::empty().push(c) =~= seq![c]);
                    assert(a.walk(0, w.subrange(i, w.len() as int)) == j);
                }
            }
        }
        assert(nq =~= want);
    }
    // acceptance
    let q = plus_q(a, w);
    a.lemma_walk_range(0, w);
    lemma_plus_unfold(a, w);
    if any_accepting(a, q) {
        let j = choose|j: int| 0 <= j < q.len() && q[j] && #[trigger] a.accepts_sids@[j];
        if a.walk(0, w) != j {
            let i = choose|i: int| 0 < i < w.len() && plus_lang(a, w.subrange(0, i))
                && #[trigger] a.walk(0, w.subrange(i, w.len() as int)) == j;
            assert(a.accepts(w.subrange(i, w.len() as int)));
        }
    }
    if plus_lang(a, w) {
        if a.accepts(w) {
            assert(q[a.walk(0, w)]);
        } else {
            let i = choose|i: int| 0 < i < w.len() && #[trigger] plus_lang(a, w.subrange(0, i)) && a.accepts(w.subrange(i, w.len() as int));
            let v = w.subrange(i, w.len() as int);
            a.lemma_walk_range(0, v);
            assert(q[a.walk(0, v)]);
        }
    }
}

/// Walking `w` then `c` in the subset construction of a repetition.
proof fn lemma_rwalk_push(a: &Spex, qs: Seq<bool>, w: Seq<char>, c: char)
    ensures
        rwalk(a, qs, w.push(c)) == next_qs(Mode::Repeat, a, a, 0, rwalk(a, qs, w), c),
    decreases w.len(),
{
    if w.len() == 0 {
        assert(w.push(c).drop_first() =~= Seq::<char>::empty());
        assert(w.push(c)[0] == c);
        let next = next_qs(Mode::Repeat, a, a, 0, qs, c);
        assert(rwalk(a, next, Seq::<char>::empty()) == next);
    } else {
        assert(w.push(c).drop_first() =~= w.drop_first().push(c));
        assert(w.push(c)[0] == w[0]);
        lemma_rwalk_push(a, next_qs(Mode::Repeat, a, a, 0, qs, w[0]), w.drop_first(), c);
    }
}

/// The repetition construction accepts one or more strings of the language.
pub proof fn lemma_plus_lang(a: &Spex, w: Seq<char>)
    requires
        a.wf(),
    ensures
        repeat_accepts(a, w) <==> plus_lang(a, w),
{
    lemma_plus_walk(a, w);
}

/// The number of sets of states among `n`: two to the `n`.
pub open spec fn subsets(n: nat) -> nat
    decreases n,
{
    if n == 0 {
        1
    } else {
        2 * subsets((n - 1) as nat)
    }
}

/// A set of states read as a binary number.
pub open spec fn bits(qs: Seq<bool>) -> nat
    decreases qs.len(),
{
    if qs.len() == 0 {
        0
    } else {
        bits(qs.drop_last()) + if qs.last() { subsets((qs.len() - 1) as nat) } else { 0 }
    }
}

proof fn lemma_bits(a: Seq<bool>, b: Seq<bool>)
    requires
        a.len() == b.len(),
    ensures
        bits(a) < subsets(a.len()),
        bits(a) == bits(b) ==> a == b,
    decreases a.len(),
{
    if a.len() > 0 {
        let n = (a.len() - 1) as nat;
        lemma_bits(a.drop_last(), b.drop_last());
        lemma_bits(b.drop_last(), a.drop_last());
        if bits(a) == bits(b) {
            assert(a.last() == b.last());
            assert(a.drop_last() == b.drop_last());
            assert(a =~= a.drop_last().push(a.last()));
            assert(b =~= b.drop_last().push(b.last()));
        }
    }
}

/// A composite state read as a number below `n1` times `subsets(n2)`.
pub open spec fn code(st: (int, Seq<bool>), n2: nat) -> int {
    st.0 * subsets(n2) + bits(st.1)
}

/// There are at most `n1 * subsets(n2)` distinct composite states.
proof fn lemma_count_composites(sts: Seq<(int, Seq<bool>)>, n1: nat, n2: nat)
    requires
        forall|k: int| 0 <= k < sts.len() ==> 0 <= (#[trigger] sts[k]).0 < n1 && sts[k].1.len() == n2,
        forall|k1: int, k2: int| 0 <= k1 < k2 < sts.len() ==> #[trigger] sts[k1] != #[trigger] sts[k2],
    ensures
        sts.len() <= n1 * subsets(n2),
{
    let codes = sts.map_values(|st: (int, Seq<bool>)| code(st, n2));
    let size = subsets(n2) as int;
    assert forall|k: int| 0 <= k < codes.len() implies 0 <= #[trigger] codes[k] < n1 * size by {
        let st = sts[k];
        lemma_bits(st.1, st.1);
        let p = st.0;
        let b = bits(st.1) as int;
        assert(0 <= p * size + b < n1 * size) by (nonlinear_arith)
            requires
                0 <= p < n1,
                0 <= b < size,
        ;
    }
    assert(codes.no_duplicates()) by {
        assert forall|k1: int, k2: int| 0 <= k1 < codes.len() && 0 <= k2 < codes.len() && k1 != k2 implies codes[k1] != codes[k2] by {
            let a = sts[k1];
            let b = sts[k2];
            if codes[k1] == codes[k2] {
                lemma_bits(a.1, b.1);
                lemma_bits(b.1, a.1);
                let (pa, pb) = (a.0, b.0);
                let (ba, bb) = (bits(a.1) as int, bits(b.1) as int);
                assert(pa == pb) by (nonlinear_arith)
                    requires
                        pa * size + ba == pb * size + bb,
                        0 <= ba < size,
                        0 <= bb < size,
                        0 <= pa,
                        0 <= pb,
                ;
                assert(a == b);
                if k1 < k2 {
                    assert(sts[k1] != sts[k2]);
                } else {
                    assert(sts[k2] != sts[k1]);
                }
            }
        }
    }
    codes.unique_seq_to_set();
    let range = vstd::set_lib::set_int_range(0, n1 * size);
    vstd::set_lib::lemma_int_range(0, n1 * size);
    assert(codes.to_set().subset_of(range));
    vstd::set_lib::lemma_len_subset(codes.to_set(), range);
}

/// Each factor of a product of sizes is at most the product.
proof fn lemma_size_product(a: int, b: int)
    requires
        a >= 1,
        b >= 1,
    ensures
        a <= a * b,
        b <= a * b,
{
    assert(a <= a * b && b <= a * b) by (nonlinear_arith)
        requires
            a >= 1,
            b >= 1,
    ;
}

/// A product construction.
pub open spec fn is_product(mode: Mode) -> bool {
    mode == Mode::Union || mode == Mode::Intersect
}

/// A composite state of a product: a state of each automaton.
pub open spec fn pair_form(st: (int, Seq<bool>), n1: int, n2: int) -> bool {
    exists|q: int| 0 <= st.0 < n1 && 0 <= q < n2 && st.1 == #[trigger] single(n2, q)
}

/// Every composite state that a product reaches is a pair.
proof fn lemma_product_form(mode: Mode, m1: &Spex, m2: &Spex, w: Seq<char>)
    requires
        m1.wf(),
        m2.wf(),
        is_product(mode),
    ensures
        pair_form(cwalk(mode, m1, m2, init_state(mode, m2), w), m1.n(), m2.n()),
{
    assert(init_state(mode, m2) == (0int, single(m2.n(), 0)));
    lemma_product_walk(mode, m1, m2, 0, 0, w);
    m1.lemma_walk_range(0, w);
    m2.lemma_walk_range(0, w);
    assert(single(m2.n(), m2.walk(0, w)) == single(m2.n(), m2.walk(0, w)));
}

/// There are at most `n1 * n2` distinct pairs.
proof fn lemma_count_pairs(sts: Seq<(int, Seq<bool>)>, n1: nat, n2: nat)
    requires
        forall|k: int| 0 <= k < sts.len() ==> #[trigger] pair_form(sts[k], n1 as int, n2 as int),
        forall|k1: int, k2: int| 0 <= k1 < k2 < sts.len() ==> #[trigger] sts[k1] != #[trigger] sts[k2],
    ensures
        sts.len() <= n1 * n2,
{
    let qof = |st: (int, Seq<bool>)| choose|q: int| 0 <= st.0 < n1 && 0 <= q < n2 && st.1 == #[trigger] single(n2 as int, q);
    let codes = sts.map_values(|st: (int, Seq<bool>)| st.0 * n2 + qof(st));
    assert forall|k: int| 0 <= k < codes.len() implies 0 <= #[trigger] codes[k] < n1 * n2 by {
        assert(pair_form(sts[k], n1 as int, n2 as int));
        let p = sts[k].0;
        let q = qof(sts[k]);
        assert(0 <= p * n2 + q < n1 * n2) by (nonlinear_arith)
            requires
                0 <= p < n1,
                0 <= q < n2,
        ;
    }
    assert(codes.no_duplicates()) by {
        assert forall|k1: int, k2: int| 0 <= k1 < codes.len() && 0 <= k2 < codes.len() && k1 != k2 implies codes[k1] != codes[k2] by {
            assert(pair_form(sts[k1], n1 as int, n2 as int));
            assert(pair_form(sts[k2], n1 as int, n2 as int));
            let (a, b) = (sts[k1], sts[k2]);
            let (qa, qb) = (qof(a), qof(b));
            if codes[k1] == codes[k2] {
                let (pa, pb) = (a.0, b.0);
                assert(pa == pb && qa == qb) by (nonlinear_arith)
                    requires
                        pa * n2 + qa == pb * n2 + qb,
                        0 <= qa < n2,
                        0 <= qb < n2,
                        0 <= pa,
                        0 <= pb,
                ;
                assert(a == b);
                if k1 < k2 {
                    assert(sts[k1] != sts[k2]);
                } else {
                    assert(sts[k2] != sts[k1]);
                }
            }
        }
    }
    codes.unique_seq_to_set();
    let range = vstd::set_lib::set_int_range(0, (n1 * n2) as int);
    vstd::set_lib::lemma_int_range(0, (n1 * n2) as int);
    assert(codes.to_set().subset_of(range));
    vstd::set_lib::lemma_len_subset(codes.to_set(), range);
}

} // verus!
