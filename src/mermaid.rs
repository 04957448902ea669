use vstd::prelude::*;

use crate::spex::{Spex, Transition};
use crate::text::push_char;

verus! {

/// The decimal digit `d`.
pub open spec fn digit_char(d: nat) -> char {
    if d == 0 { '0' } else if d == 1 { '1' } else if d == 2 { '2' } else if d == 3 { '3' } else if d == 4 { '4' }
    else if d == 5 { '5' } else if d == 6 { '6' } else if d == 7 { '7' } else if d == 8 { '8' } else { '9' }
}

/// The decimal text of `n`.
pub open spec fn decimal(n: nat) -> Seq<char>
    decreases n,
{
    if n < 10 {
        seq![digit_char(n)]
    } else {
        decimal(n / 10).push(digit_char(n % 10))
    }
}

fn push_decimal(s: &mut String, n: usize)
    ensures
        final(s)@ == old(s)@ + decimal(n as nat),
    decreases n,
{
    if n >= 10 {
        push_decimal(s, n / 10);
    }
    let d = n % 10;
    let c = if d == 0 { '0' } else if d == 1 { '1' } else if d == 2 { '2' } else if d == 3 { '3' }
        else if d == 4 { '4' } else if d == 5 { '5' } else if d == 6 { '6' } else if d == 7 { '7' }
        else if d == 8 { '8' } else { '9' };
    push_char(s, c);
    proof {
        if n < 10 {
            assert(old(s)@ + decimal(n as nat) =~= old(s)@.push(c));
        } else {
            assert(decimal(n as nat) == decimal((n / 10) as nat).push(c));
        }
    }
}

/// The declaration of state `s`: the start is drawn filled.
pub open spec fn node_text(s: nat) -> Seq<char> {
    if s == 0 {
        "    0(( ))\n"@
    } else {
        "    "@ + decimal(s) + "( )\n"@
    }
}

/// The style of state `s`: the start filled black, accepting states outlined in red.
pub open spec fn style_text(s: nat, accepting: bool) -> Seq<char> {
    if s == 0 {
        "    style 0 fill:#000,stroke-width:0px\n"@
    } else if accepting {
        "    style "@ + decimal(s) + " stroke:#dc3545,stroke-width:4px\n"@
    } else {
        Seq::empty()
    }
}

/// The line of one edge, labelled with the canonical text of its class.
pub open spec fn edge_text(t: Transition) -> Seq<char> {
    "    "@ + decimal(t.fr_sid as nat) + " -- \""@ + t.chex.str@ + "\" --> "@ + decimal(t.to_sid as nat) + "\n"@
}

/// The declarations of the first `n` states.
pub open spec fn nodes_text(n: nat) -> Seq<char>
    decreases n,
{
    if n == 0 {
        Seq::empty()
    } else {
        nodes_text((n - 1) as nat) + node_text((n - 1) as nat)
    }
}

/// The styles of the first `n` states.
pub open spec fn styles_text(acc: Seq<bool>, n: nat) -> Seq<char>
    decreases n,
{
    if n == 0 {
        Seq::empty()
    } else {
        styles_text(acc, (n - 1) as nat) + style_text((n - 1) as nat, acc[n - 1])
    }
}

/// The lines of the first `n` edges of a list.
pub open spec fn edge_list_text(tns: Seq<Transition>, n: nat) -> Seq<char>
    decreases n,
{
    if n == 0 {
        Seq::empty()
    } else {
        edge_list_text(tns, (n - 1) as nat) + edge_text(tns[n - 1])
    }
}

/// The lines of the edges out of the first `n` states.
pub open spec fn edges_text(m: &Spex, n: nat) -> Seq<char>
    decreases n,
{
    if n == 0 {
        Seq::empty()
    } else {
        edges_text(m, (n - 1) as nat) + edge_list_text(m.out(n - 1), m.out(n - 1).len())
    }
}

/// The whole diagram.
pub open spec fn mermaid_text(m: &Spex) -> Seq<char> {
    "```mermaid\ngraph LR\n"@ + nodes_text(m.n() as nat) + styles_text(m.accepts_sids@, m.n() as nat)
        + edges_text(m, m.n() as nat) + "```"@
}

impl Spex {
    /// The automaton as a Mermaid flowchart, states in the order of their ids.
    pub fn mermaid(&self) -> (r: String)
        requires
            self.wf(),
        ensures
            r@ == mermaid_text(self),
    {
        let mut ret = String::new();
        ret.append("```mermaid\ngraph LR\n");
        let ghost head = ret@;
        let n = self.tns_dict.len();
        let mut s: usize = 0;
        while s < n
            invariant
                self.wf(),
                n == self.n(),
                s <= n,
                ret@ == head + nodes_text(s as nat),
            decreases n - s,
        {
            if s == 0 {
                ret.append("    0(( ))\n");
            } else {
                ret.append("    ");
                push_decimal(&mut ret, s);
                ret.append("( )\n");
            }
            assert(ret@ =~= head + nodes_text((s + 1) as nat));
            s += 1;
        }
        let ghost head2 = ret@;
        s = 0;
        while s < n
            invariant
                self.wf(),
                n == self.n(),
                s <= n,
                ret@ == head2 + styles_text(self.accepts_sids@, s as nat),
            decreases n - s,
        {
            if s == 0 {
                ret.append("    style 0 fill:#000,stroke-width:0px\n");
            } else if self.accepts_sids[s] {
                ret.append("    style ");
                push_decimal(&mut ret, s);
                ret.append(" stroke:#dc3545,stroke-width:4px\n");
            }
            assert(ret@ =~= head2 + styles_text(self.accepts_sids@, (s + 1) as nat));
            s += 1;
        }
        let ghost head3 = ret@;
        s = 0;
        while s < n
            invariant
                self.wf(),
                n == self.n(),
                s <= n,
                ret@ == head3 + edges_text(self, s as nat),
            decreases n - s,
        {
            let tns = &self.tns_dict[s];
            let ghost head4 = ret@;
            let mut e: usize = 0;
            while e < tns.len()
                invariant
                    self.wf(),
                    s < n,
                    tns@ == self.out(s as int),
                    e <= tns@.len(),
                    ret@ == head4 + edge_list_text(tns@, e as nat),
                decreases tns.len() - e,
            {
                let t = &tns[e];
                ret.append("    ");
                push_decimal(&mut ret, t.fr_sid);
                ret.append(" -- \"");
                ret.append(t.chex.str.as_str());
                ret.append("\" --> ");
                push_decimal(&mut ret, t.to_sid);
                ret.append("\n");
                assert(ret@ =~= head4 + edge_list_text(tns@, (e + 1) as nat));
                e += 1;
            }
            assert(ret@ =~= head3 + edges_text(self, (s + 1) as nat));
            s += 1;
        }
        ret.append("```");
        assert(ret@ =~= mermaid_text(self));
        ret
    }
}

} // verus!
