use vstd::prelude::*;

use crate::chex::Chex;

verus! {

/// Classification of an automaton.
#[derive(Debug, Clone, Copy, PartialEq, Eq, Structural)]
pub enum Kind {
    /// it accepts no string
    Blank,
    /// it accepts every non-empty string
    Whole,
    /// not classified
    Other,
}

/// An edge from `fr_sid` to `to_sid`, taken on the characters of `chex`.
#[derive(Debug)]
pub struct Transition {
    pub fr_sid: usize,
    pub to_sid: usize,
    pub chex: Chex,
}

/// A deterministic automaton whose edges are labelled by character classes.
/// States are `0 .. tns_dict.len()`, state 0 is the start; `tns_dict[s]` holds
/// the edges out of `s` and `accepts_sids[s]` tells whether `s` accepts.
#[derive(Debug)]
pub struct Spex {
    pub accepts_sids: Vec<bool>,
    pub tns_dict: Vec<Vec<Transition>>,
    pub kind: Kind,
}

impl Transition {
    pub fn new(fr_sid: usize, to_sid: usize, chex: Chex) -> (r: Self)
        ensures
            r.fr_sid == fr_sid,
            r.to_sid == to_sid,
            r.chex == chex,
    {
        Transition { fr_sid, to_sid, chex }
    }

    /// A copy of the edge.
    pub fn duplicate(&self) -> (r: Self)
        requires
            self.chex.wf(),
        ensures
            r.fr_sid == self.fr_sid,
            r.to_sid == self.to_sid,
            r.chex.wf(),
            r.chex@ == self.chex@,
            forall|c: char| r.chex.has(c) == self.chex.has(c),
    {
        Transition { fr_sid: self.fr_sid, to_sid: self.to_sid, chex: self.chex.duplicate() }
    }
}

/// Edges that are well formed on their own: out of `s`, into a state other than
/// the start below `n`, with a well-formed non-empty label.
pub open spec fn edges_ok(tns: Seq<Transition>, s: int, n: int) -> bool {
    forall|e: int|
        0 <= e < tns.len() ==> {
            let t = #[trigger] tns[e];
            &&& t.fr_sid == s
            &&& 0 < t.to_sid < n
            &&& t.chex.wf()
            &&& t.chex.nonempty()
        }
}

/// `c` is on some edge.
pub open spec fn covered(tns: Seq<Transition>, c: char) -> bool {
    exists|e: int| 0 <= e < tns.len() && #[trigger] tns[e].chex.has(c)
}

/// Every character is on some edge.
pub open spec fn edges_cover(tns: Seq<Transition>) -> bool {
    forall|c: char| #[trigger] covered(tns, c)
}

/// No character is on two edges.
pub open spec fn edges_disjoint(tns: Seq<Transition>) -> bool {
    forall|e1: int, e2: int, c: char|
        0 <= e1 < tns.len() && 0 <= e2 < tns.len() && e1 != e2 && #[trigger] tns[e1].chex.has(c)
            ==> !#[trigger] tns[e2].chex.has(c)
}

/// The labels of the edges partition the characters.
pub open spec fn edges_partition(tns: Seq<Transition>) -> bool {
    edges_cover(tns) && edges_disjoint(tns)
}

impl Spex {
    /// Number of states.
    pub open spec fn n(&self) -> int {
        self.tns_dict@.len() as int
    }

    /// Edges out of `s`.
    pub open spec fn out(&self, s: int) -> Seq<Transition> {
        self.tns_dict@[s]@
    }

    /// The graph is a total deterministic automaton whose start state neither
    /// accepts nor is entered again.
    pub open spec fn graph_wf(&self) -> bool {
        &&& self.n() > 0
        &&& self.accepts_sids@.len() == self.n()
        &&& !self.accepts_sids@[0]
        &&& forall|s: int| 0 <= s < self.n() ==> edges_ok(#[trigger] self.out(s), s, self.n())
        &&& forall|s: int| 0 <= s < self.n() ==> edges_partition(#[trigger] self.out(s))
    }

    /// Every state but the start accepts.
    pub open spec fn all_accept(&self) -> bool {
        forall|s: int| 0 < s < self.n() ==> #[trigger] self.accepts_sids@[s]
    }

    /// No state accepts.
    pub open spec fn none_accept(&self) -> bool {
        forall|s: int| 0 <= s < self.n() ==> !#[trigger] self.accepts_sids@[s]
    }

    /// The kind that the acceptance flags give.
    pub open spec fn kind_spec(&self) -> Kind {
        if self.none_accept() {
            Kind::Blank
        } else if self.all_accept() {
            Kind::Whole
        } else {
            Kind::Other
        }
    }

    pub open spec fn wf(&self) -> bool {
        self.graph_wf() && self.kind == self.kind_spec()
    }

    /// The state reached from `s` on `c`.
    pub open spec fn step(&self, s: int, c: char) -> int {
        let e = choose|e: int| 0 <= e < self.out(s).len() && #[trigger] self.out(s)[e].chex.has(c);
        self.out(s)[e].to_sid as int
    }

    /// The state reached from `s` on the string `w`.
    pub open spec fn walk(&self, s: int, w: Seq<char>) -> int
        decreases w.len(),
    {
        if w.len() == 0 {
            s
        } else {
            self.walk(self.step(s, w[0]), w.drop_first())
        }
    }

    /// The string `w` is in the language.
    pub open spec fn accepts(&self, w: Seq<char>) -> bool {
        self.accepts_sids@[self.walk(0, w)]
    }

    /// Walking one character is one step.
    pub proof fn lemma_walk_one(&self, s: int, c: char)
        ensures
            self.walk(s, seq![c]) == self.step(s, c),
    {
        assert(seq![c].drop_first() =~= Seq::<char>::empty());
        assert(seq![c][0] == c);
        assert(self.walk(self.step(s, c), Seq::<char>::empty()) == self.step(s, c));
    }

    /// Some string leads from the start to `s`.
    pub open spec fn reached(&self, s: int) -> bool {
        exists|w: Seq<char>| self.walk(0, w) == s
    }

    /// Every state is reached from the start.
    pub open spec fn reachable(&self) -> bool {
        forall|s: int| 0 <= s < self.n() ==> #[trigger] self.reached(s)
    }

    /// The edge on `c` out of `s` is the one whose label holds `c`.
    pub proof fn lemma_step(&self, s: int, e: int, c: char)
        requires
            self.graph_wf(),
            0 <= s < self.n(),
            0 <= e < self.out(s).len(),
            self.out(s)[e].chex.has(c),
        ensures
            self.step(s, c) == self.out(s)[e].to_sid,
    {
        assert(edges_ok(self.out(s), s, self.n()));
        assert(edges_partition(self.out(s)));
        let f = choose|f: int| 0 <= f < self.out(s).len() && #[trigger] self.out(s)[f].chex.has(c);
        if f != e {
            assert(!self.out(s)[f].chex.has(c));
        }
    }

    /// A step stays among the states and never returns to the start.
    pub proof fn lemma_step_range(&self, s: int, c: char)
        requires
            self.graph_wf(),
            0 <= s < self.n(),
        ensures
            0 < self.step(s, c) < self.n(),
    {
        assert(edges_partition(self.out(s)));
        assert(edges_ok(self.out(s), s, self.n()));
        assert(covered(self.out(s), c));
        let e = choose|e: int| 0 <= e < self.out(s).len() && #[trigger] self.out(s)[e].chex.has(c);
        assert(0 <= e < self.out(s).len() && self.out(s)[e].chex.has(c));
        self.lemma_step(s, e, c);
    }

    /// A walk stays among the states, and a non-empty one ends away from the start.
    pub proof fn lemma_walk_range(&self, s: int, w: Seq<char>)
        requires
            self.graph_wf(),
            0 <= s < self.n(),
        ensures
            0 <= self.walk(s, w) < self.n(),
            w.len() > 0 ==> self.walk(s, w) != 0,
        decreases w.len(),
    {
        if w.len() > 0 {
            self.lemma_step_range(s, w[0]);
            self.lemma_walk_range(self.step(s, w[0]), w.drop_first());
        }
    }

    /// Walking `w` then `c` is walking `w` followed by one step.
    pub proof fn lemma_walk_push(&self, s: int, w: Seq<char>, c: char)
        ensures
            self.walk(s, w.push(c)) == self.step(self.walk(s, w), c),
        decreases w.len(),
    {
        if w.len() == 0 {
            assert(w.push(c).drop_first() =~= Seq::<char>::empty());
            assert(w.push(c)[0] == c);
            assert(self.walk(self.step(s, c), Seq::<char>::empty()) == self.step(s, c));
        } else {
            assert(w.push(c).drop_first() =~= w.drop_first().push(c));
            assert(w.push(c)[0] == w[0]);
            self.lemma_walk_push(self.step(s, w[0]), w.drop_first(), c);
        }
    }
}

/// Copies of the edges of one state.
fn copy_edges(tns: &Vec<Transition>) -> (r: Vec<Transition>)
    requires
        forall|e: int| 0 <= e < tns@.len() ==> (#[trigger] tns@[e]).chex.wf(),
    ensures
        r@.len() == tns@.len(),
        forall|e: int| 0 <= e < tns@.len() ==> same_edge(#[trigger] r@[e], tns@[e]),
{
    let mut r: Vec<Transition> = Vec::new();
    let mut i: usize = 0;
    while i < tns.len()
        invariant
            i <= tns.len(),
            r@.len() == i,
            forall|e: int| 0 <= e < tns@.len() ==> (#[trigger] tns@[e]).chex.wf(),
            forall|e: int| 0 <= e < i ==> same_edge(#[trigger] r@[e], tns@[e]),
        decreases tns.len() - i,
    {
        r.push(tns[i].duplicate());
        i += 1;
    }
    r
}

/// Two edges with the same ends and the same label.
pub open spec fn same_edge(a: Transition, b: Transition) -> bool {
    &&& a.fr_sid == b.fr_sid
    &&& a.to_sid == b.to_sid
    &&& a.chex.wf()
    &&& a.chex@ == b.chex@
    &&& forall|c: char| a.chex.has(c) == b.chex.has(c)
}

impl Spex {
    /// The same states and edges as `other`.
    pub open spec fn same_graph(&self, other: &Spex) -> bool {
        &&& self.n() == other.n()
        &&& forall|s: int| 0 <= s < self.n() ==> (#[trigger] self.out(s)).len() == other.out(s).len()
        &&& forall|s: int, e: int|
            0 <= s < self.n() && 0 <= e < self.out(s).len() ==> same_edge(
                #[trigger] self.out(s)[e],
                other.out(s)[e],
            )
    }

    /// Automata with the same graph walk alike.
    pub proof fn lemma_same_graph_walk(&self, other: &Spex, s: int, w: Seq<char>)
        requires
            self.graph_wf(),
            other.graph_wf(),
            self.same_graph(other),
            0 <= s < self.n(),
        ensures
            self.walk(s, w) == other.walk(s, w),
        decreases w.len(),
    {
        if w.len() > 0 {
            let c = w[0];
            assert(edges_partition(other.out(s)));
            assert(covered(other.out(s), c));
            let e = choose|e: int| 0 <= e < other.out(s).len() && #[trigger] other.out(s)[e].chex.has(c);
            assert(same_edge(self.out(s)[e], other.out(s)[e]));
            self.lemma_step(s, e, c);
            other.lemma_step(s, e, c);
            self.lemma_step_range(s, c);
            self.lemma_same_graph_walk(other, self.step(s, c), w.drop_first());
        }
    }

    /// A state whose edges all lead back to it is never left.
    pub proof fn lemma_sink_walk(&self, s: int, w: Seq<char>)
        requires
            self.graph_wf(),
            0 <= s < self.n(),
            forall|e: int| 0 <= e < self.out(s).len() ==> (#[trigger] self.out(s)[e]).to_sid == s,
        ensures
            self.walk(s, w) == s,
        decreases w.len(),
    {
        if w.len() > 0 {
            let c = w[0];
            assert(edges_partition(self.out(s)));
            assert(covered(self.out(s), c));
            let e = choose|e: int| 0 <= e < self.out(s).len() && #[trigger] self.out(s)[e].chex.has(c);
            self.lemma_step(s, e, c);
            self.lemma_sink_walk(s, w.drop_first());
        }
    }

    /// An automaton over the given edges and acceptance flags.
    pub fn new(tns_dict: Vec<Vec<Transition>>, accepts_sids: Vec<bool>) -> (r: Self)
        requires
            (Spex { accepts_sids, tns_dict, kind: Kind::Other }).graph_wf(),
        ensures
            r.wf(),
            r.tns_dict == tns_dict,
            r.accepts_sids == accepts_sids,
    {
        let mut any = false;
        let mut all = true;
        let mut s: usize = 0;
        while s < accepts_sids.len()
            invariant
                s <= accepts_sids.len(),
                any == (exists|k: int| 0 <= k < s && #[trigger] accepts_sids@[k]),
                all == (forall|k: int| 0 < k < s ==> #[trigger] accepts_sids@[k]),
            decreases accepts_sids.len() - s,
        {
            if accepts_sids[s] {
                any = true;
            } else if s > 0 {
                all = false;
            }
            s += 1;
        }
        let kind = if !any {
            Kind::Blank
        } else if all {
            Kind::Whole
        } else {
            Kind::Other
        };
        let ghost lit = (Spex { accepts_sids, tns_dict, kind: Kind::Other });
        let r = Spex { accepts_sids, tns_dict, kind };
        proof {
            assert forall|k: int| 0 <= k < r.n() implies edges_ok(#[trigger] r.out(k), k, r.n())
                && edges_partition(r.out(k)) by {
                assert(lit.out(k) == r.out(k));
            }
            assert(r.graph_wf());
            if !any {
                assert forall|k: int| 0 <= k < r.n() implies !#[trigger] r.accepts_sids@[k] by {
                    if r.accepts_sids@[k] {
                        assert(exists|j: int| 0 <= j < s && #[trigger] accepts_sids@[j]);
                    }
                }
            } else {
                let j = choose|j: int| 0 <= j < s && #[trigger] accepts_sids@[j];
                assert(!r.none_accept());
            }
        }
        r
    }

    /// A copy of the automaton.
    pub fn duplicate(&self) -> (r: Self)
        requires
            self.wf(),
        ensures
            r.wf(),
            r.same_graph(self),
            r.accepts_sids@ == self.accepts_sids@,
            r.kind == self.kind,
            forall|w: Seq<char>| r.accepts(w) == self.accepts(w),
            self.reachable() ==> r.reachable(),
    {
        let mut tns: Vec<Vec<Transition>> = Vec::new();
        let mut s: usize = 0;
        while s < self.tns_dict.len()
            invariant
                self.wf(),
                s <= self.tns_dict.len(),
                tns@.len() == s,
                forall|k: int| 0 <= k < s ==> (#[trigger] tns@[k]@).len() == self.out(k).len(),
                forall|k: int, e: int|
                    0 <= k < s && 0 <= e < self.out(k).len() ==> same_edge(
                        #[trigger] tns@[k]@[e],
                        self.out(k)[e],
                    ),
            decreases self.tns_dict.len() - s,
        {
            proof {
                assert(edges_ok(self.out(s as int), s as int, self.n()));
            }
            tns.push(copy_edges(&self.tns_dict[s]));
            s += 1;
        }
        let r = Spex { accepts_sids: self.accepts_sids.clone(), tns_dict: tns, kind: self.kind };
        proof {
            assert(r.accepts_sids@ =~= self.accepts_sids@);
            assert forall|k: int| 0 <= k < r.n() implies edges_ok(#[trigger] r.out(k), k, r.n()) by {
                assert(edges_ok(self.out(k), k, self.n()));
                assert forall|e: int| 0 <= e < r.out(k).len() implies #[trigger] r.out(k)[e] == r.out(k)[e] by {
                    assert(same_edge(r.out(k)[e], self.out(k)[e]));
                }
            }
            assert forall|k: int| 0 <= k < r.n() implies edges_partition(#[trigger] r.out(k)) by {
                assert(edges_partition(self.out(k)));
                assert forall|c: char| #[trigger] covered(r.out(k), c) by {
                    assert(covered(self.out(k), c));
                    let e = choose|e: int| 0 <= e < self.out(k).len() && #[trigger] self.out(k)[e].chex.has(c);
                    assert(same_edge(r.out(k)[e], self.out(k)[e]));
                }
                assert forall|e1: int, e2: int, c: char|
                    0 <= e1 < r.out(k).len() && 0 <= e2 < r.out(k).len() && e1 != e2 && #[trigger] r.out(k)[e1].chex.has(c)
                    implies !#[trigger] r.out(k)[e2].chex.has(c) by {
                    assert(same_edge(r.out(k)[e1], self.out(k)[e1]));
                    assert(same_edge(r.out(k)[e2], self.out(k)[e2]));
                }
            }
            assert forall|w: Seq<char>| r.accepts(w) == self.accepts(w) by {
                r.lemma_same_graph_walk(self, 0, w);
            }
            if self.reachable() {
                assert forall|s: int| 0 <= s < r.n() implies #[trigger] r.reached(s) by {
                    assert(self.reached(s));
                    let w = choose|w: Seq<char>| self.walk(0, w) == s;
                    r.lemma_same_graph_walk(self, 0, w);
                }
            }
        }
        r
    }
}

/// The single edge out of `s` into `to` on every character.
fn whole_edges(s: usize, to: usize) -> (r: Vec<Transition>)
    ensures
        r@.len() == 1,
        r@[0].fr_sid == s,
        r@[0].to_sid == to,
        r@[0].chex.wf(),
        !r@[0].chex.include_flg,
        r@[0].chex.char_set@.len() == 0,
        forall|c: char| r@[0].chex.has(c),
        r@[0].chex.nonempty(),
        edges_partition(r@),
{
    let r = vec![Transition::new(s, to, Chex::new_whole())];
    assert(r@[0].chex.has('a'));
    assert forall|c: char| #[trigger] covered(r@, c) by {
        assert(r@[0].chex.has(c));
    }
    r
}

impl Spex {
    /// Automata of the kind `Blank` accept nothing; those of the kind `Whole`
    /// accept every non-empty string.
    pub proof fn lemma_kind(&self, w: Seq<char>)
        requires
            self.wf(),
        ensures
            self.kind == Kind::Blank ==> !self.accepts(w),
            self.kind == Kind::Whole ==> (self.accepts(w) <==> w.len() > 0),
    {
        self.lemma_walk_range(0, w);
        let t = self.walk(0, w);
        if self.kind == Kind::Blank {
            assert(!self.accepts_sids@[t]);
        }
        if self.kind == Kind::Whole && w.len() > 0 {
            assert(self.accepts_sids@[t]);
        }
    }

    /// The automaton of the one-character strings whose character is in `chex`:
    /// start 0, accepting 1 and sink 2, or for an empty class a start and a
    /// sink that accept nothing.
    pub fn build_by_chex(chex: &Chex) -> (r: Self)
        requires
            chex.wf(),
        ensures
            r.wf(),
            r.reachable(),
            forall|w: Seq<char>| r.accepts(w) <==> (w.len() == 1 && chex.has(w[0])),
            r.kind == Kind::Blank <==> !chex.nonempty(),
            chex.nonempty() ==> r.n() == 3 && r.accepts_sids@ == seq![false, true, false],
            !chex.nonempty() ==> r.n() == 2 && r.accepts_sids@ == seq![false, false],
    {
        if !chex.inhabited() {
            let tns = vec![whole_edges(0, 1), whole_edges(1, 1)];
            let accepts = vec![false, false];
            proof {
                let g = Spex { accepts_sids: accepts, tns_dict: tns, kind: Kind::Other };
                assert forall|k: int| 0 <= k < g.n() implies edges_ok(#[trigger] g.out(k), k, g.n())
                    && edges_partition(g.out(k)) by {
                }
            }
            let r = Self::new(tns, accepts);
            proof {
                assert forall|w: Seq<char>| r.accepts(w) <==> (w.len() == 1 && chex.has(w[0])) by {
                    r.lemma_walk_range(0, w);
                }
                assert forall|k: int| 0 <= k < r.n() implies !#[trigger] r.accepts_sids@[k] by {}
                assert(r.accepts_sids@ =~= seq![false, false]);
                r.lemma_step(0, 0, 'a');
                r.lemma_walk_one(0, 'a');
                assert(r.walk(0, Seq::<char>::empty()) == 0);
                assert forall|s: int| 0 <= s < r.n() implies #[trigger] r.reached(s) by {
                    if s == 0 {
                        assert(r.walk(0, Seq::<char>::empty()) == s);
                    } else {
                        assert(r.walk(0, seq!['a']) == s);
                    }
                }
            }
            r
        } else {
            let co = chex.complement();
            let full = !co.inhabited();
            let first = if full {
                vec![Transition::new(0, 1, chex.duplicate())]
            } else {
                vec![Transition::new(0, 1, chex.duplicate()), Transition::new(0, 2, co)]
            };
            proof {
                assert forall|c: char| #[trigger] covered(first@, c) by {
                    if chex.has(c) {
                        assert(first@[0].chex.has(c));
                    } else {
                        assert(first@[1].chex.has(c));
                    }
                }
                let c = choose|c: char| chex.has(c);
                assert(first@[0].chex.has(c));
            }
            let tns = vec![first, whole_edges(1, 2), whole_edges(2, 2)];
            let accepts = vec![false, true, false];
            proof {
                let g = Spex { accepts_sids: accepts, tns_dict: tns, kind: Kind::Other };
                assert forall|k: int| 0 <= k < g.n() implies edges_ok(#[trigger] g.out(k), k, g.n())
                    && edges_partition(g.out(k)) by {
                }
            }
            let r = Self::new(tns, accepts);
            proof {
                assert forall|w: Seq<char>| r.accepts(w) <==> (w.len() == 1 && chex.has(w[0])) by {
                    if w.len() > 0 {
                        let c = w[0];
                        let rest = w.drop_first();
                        r.lemma_sink_walk(2, rest);
                        assert(r.walk(0, w) == r.walk(r.step(0, c), rest));
                        if chex.has(c) {
                            r.lemma_step(0, 0, c);
                            if rest.len() > 0 {
                                r.lemma_step(1, 0, rest[0]);
                                assert(r.walk(1, rest) == r.walk(r.step(1, rest[0]), rest.drop_first()));
                                r.lemma_sink_walk(2, rest.drop_first());
                            } else {
                                assert(r.walk(1, rest) == 1);
                            }
                        } else {
                            r.lemma_step(0, 1, c);
                        }
                    }
                }
                assert(r.accepts_sids@ =~= seq![false, true, false]);
                assert(r.accepts_sids@[1]);
                let c = choose|c: char| chex.has(c);
                assert(seq![c].drop_first() =~= Seq::<char>::empty());
                assert(seq![c, c].drop_first() =~= seq![c]);
                r.lemma_step(0, 0, c);
                r.lemma_step(1, 0, c);
                r.lemma_walk_one(0, c);
                r.lemma_walk_one(1, c);
                assert(seq![c, c][0] == c);
                assert(r.walk(0, seq![c, c]) == r.walk(1, seq![c]));
                assert(r.walk(0, Seq::<char>::empty()) == 0);
                assert forall|s: int| 0 <= s < r.n() implies #[trigger] r.reached(s) by {
                    if s == 0 {
                        assert(r.walk(0, Seq::<char>::empty()) == s);
                    } else if s == 1 {
                        assert(r.walk(0, seq![c]) == s);
                    } else {
                        assert(r.walk(0, seq![c, c]) == s);
                    }
                }
            }
            r
        }
    }

    /// The automaton of every non-empty string: the start and one accepting
    /// state, each with one edge on every character into the accepting state.
    pub fn buid_whole() -> (r: Self)
        ensures
            r.wf(),
            r.reachable(),
            r.n() == 2,
            r.kind == Kind::Whole,
            r.accepts_sids@ == seq![false, true],
            forall|s: int| 0 <= s < 2 ==> (#[trigger] r.out(s)).len() == 1 && r.out(s)[0].to_sid == 1
                && forall|c: char| r.out(s)[0].chex.has(c),
            forall|w: Seq<char>| r.accepts(w) <==> w.len() > 0,
    {
        let tns = vec![whole_edges(0, 1), whole_edges(1, 1)];
        let accepts = vec![false, true];
        proof {
            let g = Spex { accepts_sids: accepts, tns_dict: tns, kind: Kind::Other };
            assert forall|k: int| 0 <= k < g.n() implies edges_ok(#[trigger] g.out(k), k, g.n())
                && edges_partition(g.out(k)) by {
            }
        }
        let r = Self::new(tns, accepts);
        proof {
            assert(r.accepts_sids@[1]);
            assert(r.accepts_sids@ =~= seq![false, true]);
            assert forall|w: Seq<char>| r.accepts(w) <==> w.len() > 0 by {
                r.lemma_walk_range(0, w);
            }
            r.lemma_step(0, 0, 'a');
            r.lemma_walk_one(0, 'a');
            assert(r.walk(0, Seq::<char>::empty()) == 0);
            assert forall|s: int| 0 <= s < r.n() implies #[trigger] r.reached(s) by {
                if s == 0 {
                    assert(r.walk(0, Seq::<char>::empty()) == s);
                } else {
                    assert(r.walk(0, seq!['a']) == s);
                }
            }
        }
        r
    }

    /// The automaton of no string.
    pub fn new_blank() -> (r: Self)
        ensures
            r.wf(),
            r.reachable(),
            r.kind == Kind::Blank,
            forall|w: Seq<char>| !r.accepts(w),
    {
        Self::build_by_chex(&Chex::new_blank())
    }

    /// The automaton of every non-empty string, as `buid_whole` builds it.
    pub fn new_whole() -> (r: Self)
        ensures
            r.wf(),
            r.reachable(),
            r.n() == 2,
            r.kind == Kind::Whole,
            r.accepts_sids@ == seq![false, true],
            forall|s: int| 0 <= s < 2 ==> (#[trigger] r.out(s)).len() == 1 && r.out(s)[0].to_sid == 1
                && forall|c: char| r.out(s)[0].chex.has(c),
            forall|w: Seq<char>| r.accepts(w) <==> w.len() > 0,
    {
        Self::buid_whole()
    }

    /// The automaton is of the kind `Blank`: it has no accepting state, so its
    /// language is empty; when every state is reached, exactly then.
    pub fn blank(&self) -> (r: bool)
        requires
            self.wf(),
        ensures
            r == (self.kind == Kind::Blank),
            r ==> lang_empty(self),
            self.reachable() ==> (r <==> lang_empty(self)),
    {
        proof {
            assert forall|w: Seq<char>| self.kind == Kind::Blank implies !#[trigger] self.accepts(w) by {
                self.lemma_kind(w);
            }
            if self.reachable() && self.kind != Kind::Blank {
                let s = choose|s: int| 0 <= s < self.n() && #[trigger] self.accepts_sids@[s];
                assert(self.reached(s));
                let w = choose|w: Seq<char>| self.walk(0, w) == s;
                assert(self.accepts(w));
            }
        }
        match self.kind {
            Kind::Blank => true,
            _ => false,
        }
    }

    /// The automaton is of the kind `Whole`: every state but the start accepts,
    /// so it accepts every non-empty string; when every state is reached,
    /// exactly then.
    pub fn whole(&self) -> (r: bool)
        requires
            self.wf(),
        ensures
            r == (self.kind == Kind::Whole),
            r ==> forall|w: Seq<char>| self.accepts(w) <==> w.len() > 0,
            self.reachable() ==> (r <==> forall|w: Seq<char>| self.accepts(w) <==> w.len() > 0),
    {
        proof {
            assert forall|w: Seq<char>| self.kind == Kind::Whole implies (self.accepts(w) <==> w.len() > 0) by {
                self.lemma_kind(w);
            }
            if self.reachable() && self.kind != Kind::Whole && forall|w: Seq<char>| self.accepts(w) <==> w.len() > 0 {
                if self.none_accept() {
                    assert(self.n() > 1) by {
                        let c = 'a';
                        self.lemma_step_range(0, c);
                    }
                    assert(self.reached(1));
                    let w = choose|w: Seq<char>| self.walk(0, w) == 1;
                    if w.len() == 0 {
                        assert(self.walk(0, w) == 0);
                    }
                    assert(self.accepts(w));
                    assert(false);
                } else {
                    let s = choose|s: int| 0 < s < self.n() && !#[trigger] self.accepts_sids@[s];
                    assert(self.reached(s));
                    let w = choose|w: Seq<char>| self.walk(0, w) == s;
                    if w.len() == 0 {
                        assert(self.walk(0, w) == 0);
                    }
                    assert(self.accepts(w));
                }
            }
        }
        match self.kind {
            Kind::Whole => true,
            _ => false,
        }
    }

    /// The automaton of the non-empty strings that `self` rejects: the same
    /// graph, with every state but the start flipped.
    pub fn complement(&self) -> (r: Self)
        requires
            self.wf(),
        ensures
            r.wf(),
            r.n() == self.n(),
            r.same_graph(self),
            r.accepts_sids@.len() == self.accepts_sids@.len(),
            forall|s: int| 0 <= s < r.n() ==> #[trigger] r.accepts_sids@[s] == (s != 0 && !self.accepts_sids@[s]),
            self.reachable() ==> r.reachable(),
            is_complement_of(&r, self),
    {
        let copy = self.duplicate();
        let mut accepts: Vec<bool> = Vec::new();
        let mut s: usize = 0;
        while s < self.accepts_sids.len()
            invariant
                self.wf(),
                s <= self.accepts_sids.len(),
                accepts@.len() == s,
                forall|k: int| 0 <= k < s ==> #[trigger] accepts@[k] == (k != 0 && !self.accepts_sids@[k]),
            decreases self.accepts_sids.len() - s,
        {
            accepts.push(s != 0 && !self.accepts_sids[s]);
            s += 1;
        }
        proof {
            let g = Spex { accepts_sids: accepts, tns_dict: copy.tns_dict, kind: Kind::Other };
            assert forall|k: int| 0 <= k < g.n() implies edges_ok(#[trigger] g.out(k), k, g.n())
                && edges_partition(g.out(k)) by {
                assert(g.out(k) == copy.out(k));
            }
        }
        let r = Self::new(copy.tns_dict, accepts);
        proof {
            assert forall|w: Seq<char>| #[trigger] r.accepts(w) <==> (w.len() > 0 && !self.accepts(w)) by {
                assert(r.same_graph(&copy));
                r.lemma_same_graph_walk(&copy, 0, w);
                copy.lemma_same_graph_walk(self, 0, w);
                self.lemma_walk_range(0, w);
            }
            assert(r.same_graph(&copy));
            assert(r.same_graph(self)) by {
                assert forall|s: int, e: int| 0 <= s < r.n() && 0 <= e < r.out(s).len() implies same_edge(
                    #[trigger] r.out(s)[e], self.out(s)[e]) by {
                    assert(same_edge(r.out(s)[e], copy.out(s)[e]));
                    assert(same_edge(copy.out(s)[e], self.out(s)[e]));
                }
            }
            if self.reachable() {
                assert forall|s: int| 0 <= s < r.n() implies #[trigger] r.reached(s) by {
                    assert(self.reached(s));
                    let w = choose|w: Seq<char>| self.walk(0, w) == s;
                    r.lemma_same_graph_walk(&copy, 0, w);
                    copy.lemma_same_graph_walk(self, 0, w);
                }
            }
        }
        r
    }
}

/// `m` accepts exactly the strings that `a` or `b` accepts.
pub open spec fn is_union_of(m: &Spex, a: &Spex, b: &Spex) -> bool {
    forall|w: Seq<char>| #[trigger] m.accepts(w) <==> (a.accepts(w) || b.accepts(w))
}

/// `m` accepts exactly the strings that both `a` and `b` accept.
pub open spec fn is_intersection_of(m: &Spex, a: &Spex, b: &Spex) -> bool {
    forall|w: Seq<char>| #[trigger] m.accepts(w) <==> (a.accepts(w) && b.accepts(w))
}

/// `m` accepts exactly the non-empty strings that `a` rejects.
pub open spec fn is_complement_of(m: &Spex, a: &Spex) -> bool {
    forall|w: Seq<char>| #[trigger] m.accepts(w) <==> (w.len() > 0 && !a.accepts(w))
}

/// `a` and `b` accept the same strings.
pub open spec fn same_lang(a: &Spex, b: &Spex) -> bool {
    forall|w: Seq<char>| #[trigger] a.accepts(w) <==> b.accepts(w)
}

/// Every string that `a` accepts, `b` accepts.
pub open spec fn lang_within(a: &Spex, b: &Spex) -> bool {
    forall|w: Seq<char>| #[trigger] a.accepts(w) ==> b.accepts(w)
}

/// `a` accepts no string.
pub open spec fn lang_empty(a: &Spex) -> bool {
    forall|w: Seq<char>| !#[trigger] a.accepts(w)
}

/// Hands out the ids of new states: 1, 2, 3, ...; the start state is 0.
#[derive(Debug)]
pub struct SidGen {
    pub sid: usize,
}

impl SidGen {
    pub fn new() -> (r: Self)
        ensures
            r.sid == 0,
    {
        SidGen { sid: 0 }
    }

    /// The next id.
    pub fn get(&mut self) -> (r: usize)
        requires
            old(self).sid < usize::MAX,
        ensures
            r == old(self).sid + 1,
            final(self).sid == r,
    {
        self.sid = self.sid + 1;
        self.sid
    }
}

/// How many entries of `v` are set.
pub open spec fn count_true(v: Seq<bool>) -> nat
    decreases v.len(),
{
    if v.len() == 0 {
        0
    } else {
        count_true(v.drop_last()) + if v.last() { 1nat } else { 0nat }
    }
}

proof fn lemma_count_none(v: Seq<bool>)
    requires
        forall|j: int| 0 <= j < v.len() ==> !#[trigger] v[j],
    ensures
        count_true(v) == 0,
    decreases v.len(),
{
    if v.len() > 0 {
        lemma_count_none(v.drop_last());
    }
}

proof fn lemma_count_true(v: Seq<bool>, i: int)
    requires
        0 <= i < v.len(),
    ensures
        count_true(v) <= v.len(),
        !v[i] ==> count_true(v.update(i, true)) == count_true(v) + 1,
    decreases v.len(),
{
    if v.len() > 0 {
        let u = v.update(i, true);
        assert(u.drop_last() =~= if i < v.len() - 1 { v.drop_last().update(i, true) } else { v.drop_last() });
        if i < v.len() - 1 {
            lemma_count_true(v.drop_last(), i);
        } else if v.len() > 1 {
            lemma_count_true(v.drop_last(), 0);
        }
    }
}

impl Spex {
    /// A state marked in `seen` walks only into marked states.
    proof fn lemma_closed_walk(&self, seen: Seq<bool>, s: int, w: Seq<char>)
        requires
            self.graph_wf(),
            seen.len() == self.n(),
            0 <= s < self.n(),
            seen[s],
            forall|k: int, e: int, c: char|
                0 <= k < self.n() && seen[k] && 0 <= e < self.out(k).len() && #[trigger] self.out(k)[e].chex.has(c)
                    ==> seen[self.out(k)[e].to_sid as int],
        ensures
            seen[self.walk(s, w)],
        decreases w.len(),
    {
        if w.len() > 0 {
            let c = w[0];
            assert(edges_partition(self.out(s)));
            assert(covered(self.out(s), c));
            let e = choose|e: int| 0 <= e < self.out(s).len() && #[trigger] self.out(s)[e].chex.has(c);
            self.lemma_step(s, e, c);
            self.lemma_step_range(s, c);
            self.lemma_closed_walk(seen, self.step(s, c), w.drop_first());
        }
    }

    /// The automaton accepts no string: no accepting state is reached from the
    /// start through edges whose classes hold some character.
    pub fn accepts_nothing(&self) -> (r: bool)
        requires
            self.wf(),
        ensures
            r == lang_empty(self),
    {
        let n = self.tns_dict.len();
        let mut seen: Vec<bool> = Vec::new();
        let mut k: usize = 0;
        while k < n
            invariant
                k <= n,
                seen@.len() == k,
                forall|j: int| 0 <= j < k ==> !#[trigger] seen@[j],
            decreases n - k,
        {
            seen.push(false);
            k += 1;
        }
        proof {
            lemma_count_none(seen@);
            lemma_count_true(seen@, 0);
        }
        seen.set(0, true);
        let mut queue: Vec<usize> = vec![0];
        let ghost mut wit: Seq<Seq<char>> = Seq::new(n as nat, |j: int| Seq::<char>::empty());
        let mut qi: usize = 0;
        while qi < queue.len()
            invariant
                self.wf(),
                n == self.n(),
                seen@.len() == n,
                wit.len() == n,
                queue@.len() == count_true(seen@),
                qi <= queue@.len(),
                seen@[0],
                forall|j: int| 0 <= j < queue@.len() ==> (#[trigger] queue@[j]) < n && seen@[queue@[j] as int],
                forall|s: int| 0 <= s < n && #[trigger] seen@[s] ==> exists|j: int| 0 <= j < queue@.len() && queue@[j] == s,
                forall|s: int| 0 <= s < n && #[trigger] seen@[s] ==> self.walk(0, wit[s]) == s,
                forall|j: int, e: int, c: char|
                    0 <= j < qi && 0 <= e < self.out(queue@[j] as int).len()
                        && #[trigger] self.out(queue@[j] as int)[e].chex.has(c)
                        ==> seen@[self.out(queue@[j] as int)[e].to_sid as int],
            decreases n - qi,
        {
            proof {
                lemma_count_true(seen@, 0);
            }
            let s = queue[qi];
            let tns = &self.tns_dict[s];
            proof {
                assert(edges_ok(self.out(s as int), s as int, self.n()));
            }
            let mut e: usize = 0;
            while e < tns.len()
                invariant
                    self.wf(),
                    n == self.n(),
                    tns@ == self.out(s as int),
                    s < n,
                    seen@[s as int],
                    seen@.len() == n,
                    wit.len() == n,
                    queue@.len() == count_true(seen@),
                    qi < queue@.len(),
                    queue@[qi as int] == s,
                    seen@[0],
                    e <= tns@.len(),
                    forall|j: int| 0 <= j < queue@.len() ==> (#[trigger] queue@[j]) < n && seen@[queue@[j] as int],
                    forall|x: int| 0 <= x < n && #[trigger] seen@[x] ==> exists|j: int| 0 <= j < queue@.len() && queue@[j] == x,
                    forall|x: int| 0 <= x < n && #[trigger] seen@[x] ==> self.walk(0, wit[x]) == x,
                    forall|j: int, e2: int, c: char|
                        0 <= j < qi && 0 <= e2 < self.out(queue@[j] as int).len()
                            && #[trigger] self.out(queue@[j] as int)[e2].chex.has(c)
                            ==> seen@[self.out(queue@[j] as int)[e2].to_sid as int],
                    forall|e2: int, c: char| 0 <= e2 < e && #[trigger] tns@[e2].chex.has(c) ==> seen@[tns@[e2].to_sid as int],
                decreases tns@.len() - e,
            {
                let t = tns[e].to_sid;
                if tns[e].chex.inhabited() && !seen[t] {
                    proof {
                        let c = choose|c: char| tns@[e as int].chex.has(c);
                        let ws = wit[s as int];
                        self.lemma_walk_push(0, ws, c);
                        self.lemma_step(s as int, e as int, c);
                        wit = wit.update(t as int, ws.push(c));
                        lemma_count_true(seen@, t as int);
                    }
                    let ghost old_queue = queue@;
                    let ghost old_seen = seen@;
                    seen.set(t, true);
                    queue.push(t);
                    proof {
                        assert(queue@[queue@.len() - 1] == t);
                        assert forall|x: int| 0 <= x < n && #[trigger] seen@[x] implies exists|j: int| 0 <= j < queue@.len() && queue@[j] == x by {
                            if x == t {
                                assert(queue@[queue@.len() - 1] == x);
                            } else {
                                assert(old_seen[x]);
                                let j = choose|j: int| 0 <= j < old_queue.len() && old_queue[j] == x;
                                assert(queue@[j] == x);
                            }
                        }
                    }
                }
                e += 1;
            }
            qi += 1;
        }
        let mut any = false;
        let mut s: usize = 0;
        while s < n
            invariant
                self.wf(),
                n == self.n(),
                seen@.len() == n,
                s <= n,
                any == exists|x: int| 0 <= x < s && #[trigger] seen@[x] && self.accepts_sids@[x],
            decreases n - s,
        {
            if seen[s] && self.accepts_sids[s] {
                any = true;
            }
            s += 1;
        }
        proof {
            if any {
                let x = choose|x: int| 0 <= x < n && #[trigger] seen@[x] && self.accepts_sids@[x];
                assert(self.accepts(wit[x]));
            } else {
                assert forall|w: Seq<char>| !#[trigger] self.accepts(w) by {
                    assert forall|k: int, e: int, c: char|
                        0 <= k < self.n() && seen@[k] && 0 <= e < self.out(k).len() && #[trigger] self.out(k)[e].chex.has(c)
                        implies seen@[self.out(k)[e].to_sid as int] by {
                        let j = choose|j: int| 0 <= j < queue@.len() && queue@[j] == k;
                    }
                    self.lemma_closed_walk(seen@, 0, w);
                    self.lemma_walk_range(0, w);
                }
            }
        }
        !any
    }
}

} // verus!
