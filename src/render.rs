//! The text form of a graph: each node on a line, its successors indented
//! beneath it.

use std::collections::hash_set::HashSet;
use vstd::prelude::*;
use vstd::std_specs::iter::IteratorSpec;
use vstd::string::{StrSliceExecFns, StringExecFns};

use crate::graph::Graph;

verus! {

broadcast use vstd::std_specs::hash::group_hash_axioms;

/// The character of the decimal digit `d`.
pub open spec fn digit_char(d: nat) -> char {
    seq!['0', '1', '2', '3', '4', '5', '6', '7', '8', '9'][d as int]
}

/// The decimal digits of `n`, without leading zeros.
pub open spec fn decimal(n: nat) -> Seq<char>
    decreases n,
{
    if n < 10 {
        seq![digit_char(n)]
    } else {
        decimal(n / 10) + seq![digit_char(n % 10)]
    }
}

/// One line naming a node: `indent` spaces, a dash, the node, a line break.
pub open spec fn item_line(indent: nat, n: u64) -> Seq<char> {
    Seq::new(indent, |i: int| ' ') + seq!['-', ' '] + decimal(n as nat) + seq!['\n']
}

/// The lines of the successors `succ` of one node, in that order.
pub open spec fn successor_lines(succ: Seq<u64>) -> Seq<char>
    decreases succ.len(),
{
    if succ.len() == 0 {
        Seq::empty()
    } else {
        successor_lines(succ.drop_last()) + item_line(4, succ.last())
    }
}

/// The lines of each node of `entries`, each followed by those of its successors.
pub open spec fn node_blocks(entries: Seq<(u64, Seq<u64>)>) -> Seq<char>
    decreases entries.len(),
{
    if entries.len() == 0 {
        Seq::empty()
    } else {
        let last = entries.last();
        node_blocks(entries.drop_last()) + item_line(2, last.0) + successor_lines(last.1)
    }
}

/// The first line of the text form.
pub open spec fn header() -> Seq<char> {
    seq!['G', 'r', 'a', 'p', 'h', ' ', '{', '\n']
}

/// The text form of a graph listed as `entries`.
pub open spec fn rendering(entries: Seq<(u64, Seq<u64>)>) -> Seq<char> {
    header() + node_blocks(entries) + seq!['}']
}

/// `entries` lists each key of `g` once, each with its successors listed once.
pub open spec fn lists_graph(g: Map<u64, Set<u64>>, entries: Seq<(u64, Seq<u64>)>) -> bool {
    let keys = entries.map_values(|e: (u64, Seq<u64>)| e.0);
    &&& keys.no_duplicates()
    &&& keys.to_set() == g.dom()
    &&& forall|i: int|
        #![trigger entries[i]]
        0 <= i < entries.len() ==> entries[i].1.no_duplicates() && entries[i].1.to_set()
            == g[entries[i].0]
}

/// Appends the decimal digits of `n` to `s`.
fn push_decimal(s: &mut String, n: u64)
    ensures
        final(s)@ == old(s)@ + decimal(n as nat),
    decreases n,
{
    let ghost start = s@;
    if n >= 10 {
        push_decimal(s, n / 10);
    }
    let d = (n % 10) as usize;
    proof {
        reveal_strlit("0123456789");
    }
    let digit = "0123456789".substring_char(d, d + 1);
    assert(digit@ =~= seq![digit_char(d as nat)]);
    s.append(digit);
    if n >= 10 {
        assert(s@ =~= start + decimal(n as nat));
    } else {
        assert(s@ =~= start + decimal(n as nat));
    }
}

/// Appends the line naming `n`, indented by two or four spaces.
fn push_item_line(s: &mut String, deep: bool, n: u64)
    ensures
        final(s)@ == old(s)@ + item_line(if deep { 4 } else { 2 }, n),
{
    let ghost start = s@;
    if deep {
        proof {
            reveal_strlit("    - ");
        }
        s.append("    - ");
    } else {
        proof {
            reveal_strlit("  - ");
        }
        s.append("  - ");
    }
    push_decimal(s, n);
    proof {
        reveal_strlit("\n");
    }
    s.append("\n");
    assert(s@ =~= start + item_line(if deep { 4 } else { 2 }, n));
}

/// Appends the lines of the successors in `set`, and returns the order
/// in which they were written.
fn push_successors(s: &mut String, set: &HashSet<u64>) -> (order: Ghost<Seq<u64>>)
    ensures
        final(s)@ == old(s)@ + successor_lines(order@),
        order@.no_duplicates(),
        order@.to_set() == set@,
{
    let ghost start = s@;
    let ghost mut succ: Seq<u64> = Seq::empty();
    for e in it: set.iter()
        invariant
            it.seq().unref().to_set() == set@,
            it.seq().unref().no_duplicates(),
            succ == it.seq().unref().subrange(0, it.index() as int),
            s@ == start + successor_lines(succ),
            succ.no_duplicates(),
            succ.to_set().subset_of(set@),
            forall|x: u64|
                #[trigger] set@.contains(x) ==> succ.contains(x) || exists|j: int|
                    it.index() <= j < it.seq().len() && *(#[trigger] it.seq()[j]) == x,
    {
        push_item_line(s, true, *e);
        proof {
            let all = it.seq().unref();
            let i = it.index() as int;
            assert(all[i] == *e);
            assert(all.to_set().contains(*e));
            assert(!succ.contains(*e)) by {
                if succ.contains(*e) {
                    let k = choose|k: int| 0 <= k < succ.len() && succ[k] == *e;
                    assert(all[k] == all[i]);
                }
            }
            let next = succ.push(*e);
            assert(next =~= all.subrange(0, i + 1));
            assert(next.drop_last() =~= succ);
            assert(s@ =~= start + successor_lines(next));
            succ.lemma_push_to_set_commute(*e);
            assert forall|x: u64|
                #[trigger] set@.contains(x) && !next.contains(x) implies exists|j: int|
                    i + 1 <= j < it.seq().len() && *(#[trigger] it.seq()[j]) == x by {
                let j = choose|j: int| i <= j < it.seq().len() && *(#[trigger] it.seq()[j]) == x;
                if j == i {
                    assert(next[i] == x);
                }
                if succ.contains(x) {
                    let k = choose|k: int| 0 <= k < succ.len() && succ[k] == x;
                    assert(next[k] == x);
                }
            }
            succ = next;
        }
    }
    proof {
        assert(succ.to_set() =~= set@);
    }
    Ghost(succ)
}

impl Graph {
    /// The graph as text: a first line `Graph {`, then for each key a line
    /// `  - <node>` followed by one line `    - <successor>` for each of its
    /// successors, and a closing `}`. Keys and successors come in the order
    /// the underlying tables hold them.
    pub fn to_debug_string(&self) -> (r: String)
        ensures
            exists|entries: Seq<(u64, Seq<u64>)>|
                lists_graph(self@, entries) && r@ == rendering(entries),
    {
        let mut s = String::new();
        proof {
            reveal_strlit("Graph {\n");
        }
        s.append("Graph {\n");
        assert(s@ =~= header());
        let ghost mut entries: Seq<(u64, Seq<u64>)> = Seq::empty();
        let nodes = self.get_nodes();
        for item in it: nodes.iter()
            invariant
                crate::graph::view_of_table(nodes@) == self@,
                it.seq().unref().to_set() == nodes@.kv_pairs(),
                it.seq().len() == nodes@.dom().len(),
                entries.len() == it.index(),
                s@ == header() + node_blocks(entries),
                forall|i: int|
                    #![trigger entries[i]]
                    0 <= i < entries.len() ==> entries[i].0 == *it.seq()[i].0 && entries[i].1.no_duplicates()
                        && entries[i].1.to_set() == it.seq()[i].1@,
                forall|k: u64|
                    #[trigger] nodes@.contains_key(k) ==> (exists|i: int|
                        0 <= i < entries.len() && (#[trigger] entries[i]).0 == k) || exists|j: int|
                        it.index() <= j < it.seq().len() && *(#[trigger] it.seq()[j]).0 == k,
        {
            let (node, set) = item;
            push_item_line(&mut s, false, *node);
            let order = push_successors(&mut s, set);
            proof {
                let i = it.index() as int;
                let next = entries.push((*node, order@));
                assert(next.drop_last() =~= entries);
                assert(s@ =~= header() + node_blocks(next));
                assert forall|k: u64|
                    #[trigger] nodes@.contains_key(k) && !(exists|t: int|
                        0 <= t < next.len() && (#[trigger] next[t]).0 == k) implies exists|j: int|
                        i + 1 <= j < it.seq().len() && *(#[trigger] it.seq()[j]).0 == k by {
                    if exists|t: int| 0 <= t < entries.len() && (#[trigger] entries[t]).0 == k {
                        let t = choose|t: int| 0 <= t < entries.len() && (#[trigger] entries[t]).0 == k;
                        assert(next[t] == entries[t]);
                    }
                    let j = choose|j: int| i <= j < it.seq().len() && *(#[trigger] it.seq()[j]).0 == k;
                    if j == i {
                        assert(next[i].0 == k);
                    }
                }
                entries = next;
            }
        }
        proof {
            reveal_strlit("}");
        }
        s.append("}");
        proof {
            let keys = entries.map_values(|e: (u64, Seq<u64>)| e.0);
            assert forall|i: int| #![trigger entries[i]] 0 <= i < entries.len() implies nodes@.contains_key(entries[i].0)
                && entries[i].1.to_set() == self@[entries[i].0] by {
                assert(entries[i].0 == entries[i].0);
            }
            assert(keys.to_set() =~= self@.dom()) by {
                assert forall|k: u64| keys.to_set().contains(k) implies self@.dom().contains(k) by {
                    let t = choose|t: int| 0 <= t < keys.len() && keys[t] == k;
                    assert(entries[t].0 == k);
                }
                assert forall|k: u64| self@.dom().contains(k) implies keys.to_set().contains(k) by {
                    assert(nodes@.contains_key(k));
                    let t = choose|t: int| 0 <= t < entries.len() && (#[trigger] entries[t]).0 == k;
                    assert(keys[t] == k);
                }
            }
            assert(entries.len() == nodes@.dom().len());
            assert(self@.dom() =~= nodes@.dom());
            keys.lemma_no_dup_set_cardinality();
            assert(s@ =~= rendering(entries));
        }
        s
    }
}

} // verus!
