use std::collections::hash_map::{HashMap, Keys};
use std::collections::hash_set::{HashSet, Iter};
use vstd::prelude::*;
use vstd::std_specs::iter::IteratorSpec;

verus! {

broadcast use vstd::std_specs::hash::group_hash_axioms;

/// Iterator over the nodes of a graph.
pub type Nodes<'a> = Keys<'a, u64, HashSet<u64>>;

/// Iterator over the successors of one node.
pub type Edges<'a> = Iter<'a, u64>;

/// A directed graph: each node added as a key maps to the set of its successors.
pub struct Graph {
    nodes: HashMap<u64, HashSet<u64>>,
}

/// The successor set recorded for `n`, or the empty set where `n` is no key.
pub open spec fn succs(g: Map<u64, Set<u64>>, n: u64) -> Set<u64> {
    if g.contains_key(n) {
        g[n]
    } else {
        Set::empty()
    }
}

/// The graph held by a table from node to successor set.
pub open spec fn view_of_table(m: Map<u64, HashSet<u64>>) -> Map<u64, Set<u64>> {
    Map::new(|k: u64| m.contains_key(k), |k: u64| m[k]@)
}

/// `g` after `node` is made a key and `children` are added to its successors.
pub open spec fn add_edges(g: Map<u64, Set<u64>>, node: u64, children: Set<u64>) -> Map<u64, Set<u64>> {
    g.insert(node, succs(g, node) + children)
}

/// The graph built from an empty one by adding, in turn, each node of
/// `steps` with its set of children.
pub open spec fn built_from(steps: Seq<(u64, Set<u64>)>) -> Map<u64, Set<u64>>
    decreases steps.len(),
{
    if steps.len() == 0 {
        Map::empty()
    } else {
        let last = steps.last();
        add_edges(built_from(steps.drop_last()), last.0, last.1)
    }
}

/// `p` is a key with an edge to `n`.
pub open spec fn depends_on(g: Map<u64, Set<u64>>, p: u64, n: u64) -> bool {
    g.contains_key(p) && g[p].contains(n)
}

/// `path` starts at `start` and steps at each position to a node with an edge
/// to the one before it, never visiting a node twice.
pub open spec fn is_upward_path(g: Map<u64, Set<u64>>, start: u64, path: Seq<u64>) -> bool {
    &&& path.len() >= 1
    &&& path[0] == start
    &&& path.no_duplicates()
    &&& forall|i: int| 1 <= i < path.len() ==> #[trigger] depends_on(g, path[i], path[i - 1])
}

/// `p` is the first node in `order` with an edge to `n` that is not on
/// `path`.
pub open spec fn is_first_predecessor(
    g: Map<u64, Set<u64>>,
    order: Seq<u64>,
    n: u64,
    path: Seq<u64>,
    p: u64,
) -> bool {
    exists|idx: int|
        0 <= idx < order.len() && order[idx] == p && depends_on(g, p, n) && !path.contains(p)
            && forall|j: int|
            0 <= j < idx ==> !(#[trigger] depends_on(g, order[j], n) && !path.contains(order[j]))
}

/// Every node with an edge to the last node of `path` is already on it.
pub open spec fn is_stuck(g: Map<u64, Set<u64>>, path: Seq<u64>) -> bool {
    forall|k: u64| #[trigger] depends_on(g, k, path.last()) ==> path.contains(k)
}

/// Consecutive nodes of `p` are joined by edges.
pub open spec fn is_chain(g: Map<u64, Set<u64>>, p: Seq<u64>) -> bool {
    forall|i: int| 0 <= i < p.len() - 1 ==> #[trigger] depends_on(g, p[i], p[i + 1])
}

/// `p` is a walk of zero or more edges in `g`.
pub open spec fn is_path(g: Map<u64, Set<u64>>, p: Seq<u64>) -> bool {
    p.len() >= 1 && is_chain(g, p)
}

/// There is a walk of zero or more edges from `a` to `b`.
pub open spec fn reaches(g: Map<u64, Set<u64>>, a: u64, b: u64) -> bool {
    exists|p: Seq<u64>| #[trigger] is_path(g, p) && p[0] == a && p.last() == b
}

/// There is a walk from `a` to `b` whose nodes are all keys outside `avoid`.
pub open spec fn reaches_avoiding(g: Map<u64, Set<u64>>, a: u64, b: u64, avoid: Set<u64>) -> bool {
    exists|p: Seq<u64>|
        #[trigger] is_path(g, p) && p[0] == a && p.last() == b && forall|k: int|
            0 <= k < p.len() ==> g.contains_key(#[trigger] p[k]) && !avoid.contains(p[k])
}

/// No walk of one or more edges comes back to where it started.
pub open spec fn is_acyclic(g: Map<u64, Set<u64>>) -> bool {
    forall|p: Seq<u64>| #[trigger] is_path(g, p) && p.len() >= 2 ==> p[0] != p.last()
}

/// `order` lists each key of `g` once.
pub open spec fn covers_keys(g: Map<u64, Set<u64>>, order: Seq<u64>) -> bool {
    &&& order.no_duplicates()
    &&& order.to_set() == g.dom()
    &&& order.len() == g.dom().len()
}

/// Wherever `order[i]` has an edge to `order[j]`, the target comes first,
/// unless the target reaches the source (both lie on a cycle).
pub open spec fn successors_first(g: Map<u64, Set<u64>>, order: Seq<u64>) -> bool {
    forall|i: int, j: int|
        0 <= i < order.len() && 0 <= j < order.len() && #[trigger] depends_on(
            g,
            order[i],
            order[j],
        ) ==> j < i || reaches(g, order[j], order[i])
}

/// What `after` holds beyond its prefix `before`.
spec fn appended(before: Seq<u64>, after: Seq<u64>) -> Seq<u64> {
    after.subrange(before.len() as int, after.len() as int)
}

/// `x` stands in `order` at some position `j >= i` that `v` does not precede.
pub open spec fn placed_between(order: Seq<u64>, i: int, x: u64, v: u64) -> bool {
    exists|j: int| i <= j < order.len() && order[j] == x && !(#[trigger] order.subrange(0, j)).contains(v)
}

/// Where `order[i]` has an edge to a key `v` that does not come before it,
/// some walk leads from `v` back to `order[i]` through nodes placed between
/// the two: `order[i]` was reached from `v` while `v` was being traversed.
pub open spec fn back_edges_nested(g: Map<u64, Set<u64>>, order: Seq<u64>) -> bool {
    forall|i: int, v: u64|
        0 <= i < order.len() && #[trigger] depends_on(g, order[i], v) && g.contains_key(v)
            && !order.subrange(0, i).contains(v) ==> exists|w: Seq<u64>|
            #[trigger] is_path(g, w) && w[0] == v && w.last() == order[i] && forall|m: int|
                0 <= m < w.len() ==> placed_between(order, i, #[trigger] w[m], v)
}

/// `x` is on `stack` at or above `v`.
spec fn above_on_stack(stack: Seq<u64>, v: u64, x: u64) -> bool {
    exists|a: int, b: int| 0 <= a <= b < stack.len() && stack[a] == v && stack[b] == x
}

/// The nesting of back edges while a traversal is under way: a node of the
/// walk back is either placed already or still on the stack above `v`.
spec fn back_edges_pending(g: Map<u64, Set<u64>>, dst: Seq<u64>, stack: Seq<u64>) -> bool {
    forall|i: int, v: u64|
        0 <= i < dst.len() && #[trigger] depends_on(g, dst[i], v) && g.contains_key(v)
            && !dst.subrange(0, i).contains(v) ==> exists|w: Seq<u64>|
            #[trigger] is_path(g, w) && w[0] == v && w.last() == dst[i] && forall|m: int|
                0 <= m < w.len() ==> placed_between(dst, i, #[trigger] w[m], v) || (stack.contains(v)
                    && above_on_stack(stack, v, w[m]))
}

/// Traversal state of a node during `sort`.
enum Mark {
    InProgress,
    Done,
}

/// The state of a depth-first traversal: `dst` holds the finished nodes,
/// `stack` the nodes in progress, each with an edge to the next.
spec fn dfs_inv(g: Map<u64, Set<u64>>, dst: Seq<u64>, marks: Map<u64, Mark>, stack: Seq<u64>) -> bool {
    &&& marks.dom().subset_of(g.dom())
    &&& dst.no_duplicates()
    &&& forall|x: u64| #[trigger] dst.contains(x) <==> marks.contains_key(x) && marks[x] == Mark::Done
    &&& forall|x: u64|
        #[trigger] stack.contains(x) <==> marks.contains_key(x) && marks[x] == Mark::InProgress
    &&& is_chain(g, stack)
    &&& stack.no_duplicates()
    &&& back_edges_pending(g, dst, stack)
    &&& forall|i: int, v: u64|
        0 <= i < dst.len() && #[trigger] depends_on(g, dst[i], v) && g.contains_key(v) ==> (
        marks.contains_key(v) && (dst.subrange(0, i).contains(v) || reaches(g, v, dst[i])))
}

impl View for Graph {
    type V = Map<u64, Set<u64>>;

    closed spec fn view(&self) -> Map<u64, Set<u64>> {
        view_of_table(self.nodes@)
    }
}

/// The keys of a walk over the table, in its order.
spec fn keys_of_walk(pairs: Seq<(&u64, &HashSet<u64>)>) -> Seq<u64> {
    pairs.unref().map_values(|e: (u64, HashSet<u64>)| e.0)
}

/// A walk over the table lists each key once.
proof fn lemma_walk_lists_keys(m: Map<u64, HashSet<u64>>, pairs: Seq<(&u64, &HashSet<u64>)>)
    requires
        m.dom().finite(),
        pairs.len() == m.dom().len(),
        forall|i: int| 0 <= i < pairs.len() ==> m.contains_key(*(#[trigger] pairs[i]).0),
        forall|k: u64| #[trigger] m.contains_key(k) ==> pairs.contains((&k, &m[k])),
    ensures
        covers_keys(view_of_table(m), keys_of_walk(pairs)),
{
    let keys = keys_of_walk(pairs);
    let g = view_of_table(m);
    assert(g.dom() =~= m.dom());
    assert forall|k: u64| keys.to_set().contains(k) implies g.dom().contains(k) by {
        let t = choose|t: int| 0 <= t < keys.len() && keys[t] == k;
        assert(m.contains_key(*pairs[t].0));
    }
    assert forall|k: u64| g.dom().contains(k) implies keys.to_set().contains(k) by {
        assert(m.contains_key(k));
        let t = choose|t: int| 0 <= t < pairs.len() && pairs[t] == (&k, &m[k]);
        assert(keys[t] == k);
    }
    assert(keys.to_set() =~= g.dom());
    keys.lemma_no_dup_set_cardinality();
}

/// Whether `x` occurs in `v`.
fn contains_ref(v: &Vec<&u64>, x: u64) -> (r: bool)
    ensures
        r == v@.unref().contains(x),
{
    let mut i: usize = 0;
    while i < v.len()
        invariant
            i <= v@.len(),
            forall|j: int| 0 <= j < i ==> *v@[j] != x,
        decreases v@.len() - i,
    {
        if *v[i] == x {
            assert(v@.unref()[i as int] == x);
            return true;
        }
        i = i + 1;
    }
    false
}

impl Graph {
    /// An empty graph.
    pub fn new() -> (g: Graph)
        ensures
            g@ == Map::<u64, Set<u64>>::empty(),
    {
        let g = Graph { nodes: HashMap::new() };
        assert(g@ =~= Map::<u64, Set<u64>>::empty());
        g
    }

    /// Makes `node` a key and adds `children` to its successors.
    pub fn add(&mut self, node: u64, children: &[u64])
        ensures
            final(self)@ == add_edges(old(self)@, node, children@.to_set()),
    {
        let mut set = match self.nodes.remove(&node) {
            Some(s) => s,
            None => HashSet::new(),
        };
        let ghost start = set@;
        let mut i: usize = 0;
        while i < children.len()
            invariant
                i <= children@.len(),
                set@ == start + children@.subrange(0, i as int).to_set(),
            decreases children@.len() - i,
        {
            set.insert(children[i]);
            proof {
                assert(children@.subrange(0, i + 1) =~= children@.subrange(0, i as int).push(children@[i as int]));
                children@.subrange(0, i as int).lemma_push_to_set_commute(children@[i as int]);
            }
            i = i + 1;
        }
        assert(children@.subrange(0, i as int) =~= children@);
        self.nodes.insert(node, set);
        assert(self@ =~= add_edges(old(self)@, node, children@.to_set()));
    }

    /// Makes `node` a key and adds `child` to its successors.
    pub fn link(&mut self, node: u64, child: u64)
        ensures
            final(self)@ == add_edges(old(self)@, node, set![child]),
    {
        let mut set = match self.nodes.remove(&node) {
            Some(s) => s,
            None => HashSet::new(),
        };
        set.insert(child);
        self.nodes.insert(node, set);
        assert(succs(old(self)@, node).insert(child) =~= succs(old(self)@, node) + set![child]);
        assert(self@ =~= add_edges(old(self)@, node, set![child]));
    }
    /// The table from each node to its successors.
    pub fn get_nodes(&self) -> (r: &HashMap<u64, HashSet<u64>>)
        ensures
            view_of_table(r@) == self@,
    {
        &self.nodes
    }

    /// The successors of `node`, or `None` where `node` was never added as a key.
    pub fn edges(&self, node: &u64) -> (r: Option<Edges<'_>>)
        ensures
            r is Some <==> self@.contains_key(*node),
            r matches Some(it) ==> it.remaining().unref().to_set() == self@[*node]
                && it.remaining().no_duplicates(),
    {
        match self.nodes.get(node) {
            Some(set) => Some(set.iter()),
            None => None,
        }
    }

    /// The nodes added as keys, each once.
    pub fn iter(&self) -> (r: Nodes<'_>)
        ensures
            r.remaining().unref().to_set() == self@.dom(),
            r.remaining().no_duplicates(),
    {
        proof {
            self.lemma_view_dom();
        }
        self.nodes.keys()
    }

    proof fn lemma_view_dom(&self)
        ensures
            self@.dom() == self.nodes@.dom(),
            self@.dom().finite(),
    {
        assert(self@.dom() =~= self.nodes@.dom());
    }

    /// The first key, in the order the table is walked, with an edge to `pkg`
    /// that is not yet in `res`, if there is one.
    fn first_pkg_depending_on<'a>(&'a self, pkg: &u64, res: &Vec<&'a u64>) -> (r: Option<&'a u64>)
        ensures
            match r {
                Some(p) => is_first_predecessor(self@, keys_of_walk(vstd::std_specs::hash::spec_hash_map_iter(&self.nodes).remaining()), *pkg, res@.unref(), *p),
                None => forall|k: u64|
                    #[trigger] depends_on(self@, k, *pkg) ==> res@.unref().contains(k),
            },
    {
        for item in it: self.nodes.iter()
            invariant
                it.seq() == vstd::std_specs::hash::spec_hash_map_iter(&self.nodes).remaining(),
                it.seq().unref().to_set() == self.nodes@.kv_pairs(),
                forall|j: int|
                    0 <= j < it.index() ==> !(#[trigger] depends_on(self@, keys_of_walk(vstd::std_specs::hash::spec_hash_map_iter(&self.nodes).remaining())[j], *pkg)
                        && !res@.unref().contains(keys_of_walk(vstd::std_specs::hash::spec_hash_map_iter(&self.nodes).remaining())[j])),
                forall|k: u64|
                    #[trigger] depends_on(self@, k, *pkg) && !res@.unref().contains(k) ==> exists|
                        j: int,
                    |
                        it.index() <= j < it.seq().len() && (#[trigger] it.seq()[j]).0 == k,
        {
            let (node, adjacent) = item;
            if adjacent.contains(pkg) && !contains_ref(res, *node) {
                proof {
                    assert(it.seq().unref().to_set().contains((*node, *adjacent)));
                    assert(keys_of_walk(vstd::std_specs::hash::spec_hash_map_iter(&self.nodes).remaining())[it.index() as int] == *node);
                }
                return Some(node);
            }
            proof {
                let i = it.index() as int;
                assert(it.seq()[i].0 == node);
                assert(keys_of_walk(vstd::std_specs::hash::spec_hash_map_iter(&self.nodes).remaining())[i] == *node);
                if depends_on(self@, *node, *pkg) {
                    assert(self.nodes@.contains_key(*node) && self.nodes@[*node] == *adjacent);
                }
            }
            proof {
                assert forall|k: u64|
                    #[trigger] depends_on(self@, k, *pkg) && !res@.unref().contains(k) implies exists|
                        j: int,
                    |
                        it.index() + 1 <= j < it.seq().len() && (#[trigger] it.seq()[j]).0 == k by {
                    let j = choose|j: int|
                        it.index() <= j < it.seq().len() && (#[trigger] it.seq()[j]).0 == k;
                    if j == it.index() {
                        assert(it.seq().unref().to_set().contains((*node, *adjacent)));
                    }
                }
            }
        }
        None
    }

    /// One path from `pkg` upwards: each further node has an edge to the node
    /// before it and is the first such key not yet on the path, in one order
    /// of the keys (the table's walk order) kept for the whole walk. The walk
    /// stops where every node with an edge to the last one is on the path.
    pub fn path_to_top<'a>(&'a self, pkg: &'a u64) -> (r: Vec<&'a u64>)
        ensures
            is_upward_path(self@, *pkg, r@.unref()),
            is_stuck(self@, r@.unref()),
            exists|order: Seq<u64>|
                #[trigger] covers_keys(self@, order) && forall|i: int|
                    0 <= i < r@.len() - 1 ==> is_first_predecessor(
                        self@,
                        order,
                        #[trigger] r@.unref()[i],
                        r@.unref().subrange(0, i + 1),
                        r@.unref()[i + 1],
                    ),
    {
        let ghost order = keys_of_walk(vstd::std_specs::hash::spec_hash_map_iter(&self.nodes).remaining());
        proof {
            self.lemma_view_dom();
            lemma_walk_lists_keys(self.nodes@, vstd::std_specs::hash::spec_hash_map_iter(&self.nodes).remaining());
        }
        let mut result: Vec<&'a u64> = Vec::new();
        result.push(pkg);
        let mut cur: &'a u64 = pkg;
        loop
            invariant
                is_upward_path(self@, *pkg, result@.unref()),
                *cur == result@.unref().last(),
                result@.unref().drop_first().to_set().subset_of(self@.dom()),
                order == keys_of_walk(vstd::std_specs::hash::spec_hash_map_iter(&self.nodes).remaining()),
                forall|i: int|
                    0 <= i < result@.len() - 1 ==> is_first_predecessor(
                        self@,
                        order,
                        #[trigger] result@.unref()[i],
                        result@.unref().subrange(0, i + 1),
                        result@.unref()[i + 1],
                    ),
            ensures
                is_upward_path(self@, *pkg, result@.unref()),
                is_stuck(self@, result@.unref()),
                forall|i: int|
                    0 <= i < result@.len() - 1 ==> is_first_predecessor(
                        self@,
                        order,
                        #[trigger] result@.unref()[i],
                        result@.unref().subrange(0, i + 1),
                        result@.unref()[i + 1],
                    ),
            decreases self@.dom().len() + 1 - result@.len(),
        {
            match self.first_pkg_depending_on(cur, &result) {
                Some(p) => {
                    let ghost before = result@.unref();
                    result.push(p);
                    proof {
                        assert(result@.unref() =~= before.push(*p));
                        assert(result@.unref().drop_first() =~= before.drop_first().push(*p));
                        assert forall|i: int| 0 <= i < result@.len() - 1 implies is_first_predecessor(
                            self@,
                            order,
                            #[trigger] result@.unref()[i],
                            result@.unref().subrange(0, i + 1),
                            result@.unref()[i + 1],
                        ) by {
                            assert(result@.unref().subrange(0, i + 1) =~= before.subrange(0, i + 1));
                            assert(result@.unref()[i] == before[i]);
                            if i == before.len() - 1 {
                                assert(before.subrange(0, i + 1) =~= before);
                                assert(result@.unref()[i + 1] == *p);
                            } else {
                                assert(result@.unref()[i + 1] == before[i + 1]);
                                assert(is_first_predecessor(
                                    self@,
                                    order,
                                    before[i],
                                    before.subrange(0, i + 1),
                                    before[i + 1],
                                ));
                            }
                        }
                        before.drop_first().lemma_push_to_set_commute(*p);
                    }
                    cur = p;
                    proof {
                        self.lemma_view_dom();
                        let tail = result@.unref().drop_first();
                        tail.unique_seq_to_set();
                        vstd::set_lib::lemma_len_subset(tail.to_set(), self@.dom());
                    }
                },
                None => {
                    break ;
                },
            }
        }
        proof {
            assert(covers_keys(self@, order));
        }
        result
    }
    /// A list of every key, each once. Each node comes after all the keys
    /// it leads to that were not yet placed when its traversal began; a
    /// successor that is on the current traversal path is skipped, so cycles
    /// end the walk instead of repeating it. Never fails.
    pub fn sort(&self) -> (r: Option<Vec<u64>>)
        ensures
            r is Some,
            covers_keys(self@, r.unwrap()@),
            successors_first(self@, r.unwrap()@),
            back_edges_nested(self@, r.unwrap()@),
    {
        let mut ret: Vec<u64> = Vec::new();
        let mut marks: HashMap<u64, Mark> = HashMap::new();
        proof {
            self.lemma_view_dom();
        }
        for node in it: self.nodes.keys()
            invariant
                it.seq().unref().to_set() == self.nodes@.dom(),
                self@.dom() == self.nodes@.dom(),
                dfs_inv(self@, ret@, marks@, Seq::empty()),
                forall|x: u64|
                    #[trigger] self@.dom().contains(x) ==> marks@.contains_key(x) || exists|j: int|
                        it.index() <= j < it.seq().len() && *(#[trigger] it.seq()[j]) == x,
        {
            proof {
                assert(it.seq().unref().to_set().contains(*node));
            }
            self.visit(node, &mut ret, &mut marks, Ghost(Seq::empty()));
            proof {
                assert forall|x: u64|
                    #[trigger] self@.dom().contains(x) && !marks@.contains_key(x) implies exists|j: int|
                        it.index() + 1 <= j < it.seq().len() && *(#[trigger] it.seq()[j]) == x by {
                    let j = choose|j: int| it.index() <= j < it.seq().len() && *(#[trigger] it.seq()[j]) == x;
                }
            }
        }
        proof {
            assert forall|x: u64| self@.dom().contains(x) implies ret@.contains(x) by {
                assert(marks@.contains_key(x));
                assert(!Seq::<u64>::empty().contains(x));
            }
            assert(ret@.to_set() =~= self@.dom());
            ret@.unique_seq_to_set();
            assert forall|i: int, j: int|
                0 <= i < ret@.len() && 0 <= j < ret@.len() && #[trigger] depends_on(
                    self@,
                    ret@[i],
                    ret@[j],
                ) implies j < i || reaches(self@, ret@[j], ret@[i]) by {
                assert(self@.contains_key(ret@[j]));
                if ret@.subrange(0, i).contains(ret@[j]) {
                    let k = choose|k: int| 0 <= k < i && ret@.subrange(0, i)[k] == ret@[j];
                    assert(ret@[k] == ret@[j]);
                }
            }
        }
        proof {
            let order = ret@;
            let empty = Seq::<u64>::empty();
            assert forall|i: int, v: u64|
                0 <= i < order.len() && #[trigger] depends_on(self@, order[i], v) && self@.contains_key(v)
                    && !order.subrange(0, i).contains(v) implies exists|w: Seq<u64>|
                    #[trigger] is_path(self@, w) && w[0] == v && w.last() == order[i] && forall|m: int|
                        0 <= m < w.len() ==> placed_between(order, i, #[trigger] w[m], v) by {
                let w = choose|w: Seq<u64>|
                    #[trigger] is_path(self@, w) && w[0] == v && w.last() == order[i] && forall|m: int|
                        0 <= m < w.len() ==> placed_between(order, i, #[trigger] w[m], v) || (empty.contains(v)
                            && above_on_stack(empty, v, w[m]));
                assert(!empty.contains(v));
            }
        }
        Some(ret)
    }

    /// Visits `node` and, first, every key it leads to that has no mark yet.
    fn visit(&self, node: &u64, dst: &mut Vec<u64>, marks: &mut HashMap<u64, Mark>, Ghost(stack): Ghost<Seq<u64>>)
        requires
            dfs_inv(self@, old(dst)@, old(marks)@, stack),
            stack.len() > 0 ==> depends_on(self@, stack.last(), *node),
        ensures
            dfs_inv(self@, final(dst)@, final(marks)@, stack),
            final(dst)@.subrange(0, old(dst)@.len() as int) == old(dst)@,
            old(dst)@.len() <= final(dst)@.len(),
            old(marks)@.dom().subset_of(final(marks)@.dom()),
            self@.contains_key(*node) ==> final(marks)@.contains_key(*node),
            old(marks)@.contains_key(*node) || !self@.contains_key(*node) ==> final(dst)@ == old(dst)@
                && final(marks)@ == old(marks)@,
            !old(marks)@.contains_key(*node) && self@.contains_key(*node) ==> final(dst)@.len() > old(
                dst,
            )@.len() && final(dst)@.last() == *node,
            !old(marks)@.contains_key(*node) && self@.contains_key(*node) ==> forall|x: u64|
                #[trigger] appended(old(dst)@, final(dst)@).contains(x) <==> reaches_avoiding(
                    self@,
                    *node,
                    x,
                    old(marks)@.dom(),
                ),
        decreases self@.dom().len() - old(marks)@.dom().len(),
    {
        proof {
            self.lemma_view_dom();
        }
        if marks.contains_key(node) {
            return;
        }
        let children = match self.nodes.get(node) {
            Some(c) => c,
            None => {
                return;
            },
        };
        let ghost dst0 = dst@;
        let ghost marks0 = marks@;
        assert(marks0.dom().finite());
        marks.insert(*node, Mark::InProgress);
        let ghost inner = stack.push(*node);
        proof {
            assert(!stack.contains(*node));
            assert forall|x: u64| #[trigger] inner.contains(x) <==> marks@.contains_key(x) && marks@[x] == Mark::InProgress by {
                if x != *node {
                    if stack.contains(x) {
                        let k = choose|k: int| 0 <= k < stack.len() && stack[k] == x;
                        assert(inner[k] == x);
                    }
                    if inner.contains(x) {
                        let k = choose|k: int| 0 <= k < inner.len() && inner[k] == x;
                        assert(stack[k] == x);
                    }
                } else {
                    assert(inner[inner.len() - 1] == x);
                }
            }
            lemma_pending_push(self@, dst@, stack, *node);
            assert(is_chain(self@, inner)) by {
                assert forall|i: int| 0 <= i < inner.len() - 1 implies #[trigger] depends_on(self@, inner[i], inner[i + 1]) by {
                    if i < stack.len() - 1 {
                        assert(depends_on(self@, stack[i], stack[i + 1]));
                    }
                }
            }
        }
        for child in it: children.iter()
            invariant
                it.seq().unref().to_set() == children@,
                children@ == self@[*node],
                self@.contains_key(*node),
                self@.dom() == self.nodes@.dom(),
                inner == stack.push(*node),
                dfs_inv(self@, dst@, marks@, inner),
                dst@.subrange(0, dst0.len() as int) == dst0,
                dst0.len() <= dst@.len(),
                marks0.dom().insert(*node).subset_of(marks@.dom()),
                !marks0.contains_key(*node),
                marks0.dom().finite(),
                marks0 == old(marks)@,
                forall|x: u64|
                    #[trigger] appended(dst0, dst@).contains(x) ==> reaches_avoiding(
                        self@,
                        *node,
                        x,
                        marks0.dom(),
                    ),
                forall|x: u64|
                    #[trigger] children@.contains(x) && self@.contains_key(x) ==> marks@.contains_key(x)
                        || exists|j: int| it.index() <= j < it.seq().len() && *(#[trigger] it.seq()[j]) == x,
        {
            proof {
                assert(it.seq().unref().to_set().contains(*child));
                vstd::set_lib::lemma_len_subset(marks@.dom(), self@.dom());
                vstd::set_lib::lemma_len_subset(marks0.dom().insert(*node), marks@.dom());
                assert(marks0.dom().insert(*node).len() == marks0.dom().len() + 1);
            }
            let ghost dst1 = dst@;
            let ghost marks1 = marks@;
            self.visit(child, dst, marks, Ghost(inner));
            proof {
                assert(depends_on(self@, *node, *child));
                assert forall|x: u64| #[trigger] appended(dst0, dst@).contains(x) implies reaches_avoiding(
                    self@,
                    *node,
                    x,
                    marks0.dom(),
                ) by {
                    let k = choose|k: int| 0 <= k < appended(dst0, dst@).len() && appended(dst0, dst@)[k] == x;
                    let t = dst0.len() + k;
                    assert(dst@[t] == x);
                    if t < dst1.len() {
                        assert(dst@.subrange(0, dst1.len() as int)[t] == dst1[t]);
                        assert(appended(dst0, dst1)[k] == x);
                        assert(appended(dst0, dst1).contains(x));
                    } else {
                        assert(appended(dst1, dst@)[t - dst1.len()] == x);
                        assert(appended(dst1, dst@).contains(x));
                        assert(reaches_avoiding(self@, *child, x, marks1.dom()));
                        let p = choose|p: Seq<u64>|
                            #[trigger] is_path(self@, p) && p[0] == *child && p.last() == x && forall|k: int|
                                0 <= k < p.len() ==> self@.contains_key(#[trigger] p[k]) && !marks1.dom().contains(p[k]);
                        let q = seq![*node] + p;
                        assert(is_chain(self@, p));
                        assert forall|m: int| 0 <= m < q.len() - 1 implies #[trigger] depends_on(self@, q[m], q[m + 1]) by {
                            if m > 0 {
                                let m1 = m - 1;
                                assert(depends_on(self@, p[m1], p[m1 + 1]));
                                assert(q[m] == p[m1] && q[m + 1] == p[m1 + 1]);
                            } else {
                                assert(q[1] == p[0]);
                            }
                        }
                        assert forall|m: int| 0 <= m < q.len() implies self@.contains_key(#[trigger] q[m]) && !marks0.dom().contains(q[m]) by {
                            if m > 0 {
                                assert(q[m] == p[m - 1]);
                            }
                        }
                        assert(is_path(self@, q) && q[0] == *node && q.last() == x);
                    }
                }
                assert(dst@.subrange(0, dst0.len() as int) =~= dst1.subrange(0, dst0.len() as int));
                assert forall|x: u64|
                    #[trigger] children@.contains(x) && self@.contains_key(x) && !marks@.contains_key(x) implies exists|j: int|
                        it.index() + 1 <= j < it.seq().len() && *(#[trigger] it.seq()[j]) == x by {
                    let j = choose|j: int| it.index() <= j < it.seq().len() && *(#[trigger] it.seq()[j]) == x;
                }
            }
        }
        let ghost dst2 = dst@;
        proof {
            // `node` is still in progress, so it is not yet finished.
            assert(inner[inner.len() - 1] == *node);
            assert(inner.contains(*node));
            assert(marks@.contains_key(*node));
            assert(marks@[*node] == Mark::InProgress);
            assert(!dst2.contains(*node));
            assert forall|x: u64| #[trigger] inner.contains(x) implies !dst2.contains(x) by {
                assert(marks@[x] == Mark::InProgress);
            }
            assert forall|v: u64|
                #[trigger] depends_on(self@, *node, v) && self@.contains_key(v) implies dst2.contains(v)
                    || inner.contains(v) by {
                assert(children@.contains(v));
                assert(marks@.contains_key(v));
            }
            lemma_pending_pop(self@, dst2, stack, *node);
        }
        dst.push(*node);
        marks.insert(*node, Mark::Done);
        proof {
            assert(dst@.subrange(0, dst0.len() as int) =~= dst2.subrange(0, dst0.len() as int));
            assert(dst@.subrange(0, dst2.len() as int) =~= dst2);
            assert forall|x: u64| #[trigger] dst@.contains(x) <==> marks@.contains_key(x) && marks@[x] == Mark::Done by {
                if dst@.contains(x) && x != *node {
                    let k = choose|k: int| 0 <= k < dst@.len() && dst@[k] == x;
                    assert(dst2[k] == x);
                }
                if x != *node && dst2.contains(x) {
                    let k = choose|k: int| 0 <= k < dst2.len() && dst2[k] == x;
                    assert(dst@[k] == x);
                }
                if x == *node {
                    assert(dst@[dst2.len() as int] == x);
                }
            }
            assert forall|x: u64| #[trigger] stack.contains(x) <==> marks@.contains_key(x) && marks@[x] == Mark::InProgress by {
                if stack.contains(x) {
                    let k = choose|k: int| 0 <= k < stack.len() && stack[k] == x;
                    assert(inner[k] == x);
                }
                if x != *node && inner.contains(x) {
                    let k = choose|k: int| 0 <= k < inner.len() && inner[k] == x;
                    assert(k < stack.len());
                    assert(stack[k] == x);
                }
            }
            assert forall|i: int, v: u64|
                0 <= i < dst@.len() && #[trigger] depends_on(self@, dst@[i], v) && self@.contains_key(v) implies
                marks@.contains_key(v) && (dst@.subrange(0, i).contains(v) || reaches(self@, v, dst@[i])) by {
                if i < dst2.len() {
                    assert(dst@[i] == dst2[i]);
                    assert(dst@.subrange(0, i) =~= dst2.subrange(0, i));
                } else {
                    assert(dst@.subrange(0, i) =~= dst2);
                    assert(children@.contains(v));
                    assert(marks@.contains_key(v));
                    if !dst2.contains(v) {
                        assert(inner.contains(v));
                        let k = choose|k: int| 0 <= k < inner.len() && inner[k] == v;
                        let w = inner.subrange(k, inner.len() as int);
                        assert(is_chain(self@, w)) by {
                            assert forall|t: int| 0 <= t < w.len() - 1 implies #[trigger] depends_on(self@, w[t], w[t + 1]) by {
                                assert(depends_on(self@, inner[k + t], inner[k + t + 1]));
                            }
                        }
                        assert(is_path(self@, w) && w[0] == v && w.last() == *node);
                    }
                }
            }
            assert forall|x: u64| #[trigger] appended(dst0, dst@).contains(x) <==> reaches_avoiding(
                self@,
                *node,
                x,
                marks0.dom(),
            ) by {
                if appended(dst0, dst@).contains(x) {
                    let k = choose|k: int| 0 <= k < appended(dst0, dst@).len() && appended(dst0, dst@)[k] == x;
                    if x != *node {
                        assert(k < appended(dst0, dst2).len());
                        assert(appended(dst0, dst2)[k] == x);
                        assert(appended(dst0, dst2).contains(x));
                    } else {
                        let q = seq![*node];
                        assert(is_path(self@, q) && q[0] == *node && q.last() == x);
                    }
                }
                if reaches_avoiding(self@, *node, x, marks0.dom()) {
                    let p = choose|p: Seq<u64>|
                        #[trigger] is_path(self@, p) && p[0] == *node && p.last() == x && forall|k: int|
                            0 <= k < p.len() ==> self@.contains_key(#[trigger] p[k]) && !marks0.dom().contains(p[k]);
                    assert(dst@[dst2.len() as int] == *node);
                    lemma_walk_is_finished(self@, dst0, dst@, marks0, marks@, stack, p, p.len() - 1);
                    let i = choose|i: int| 0 <= i < dst@.len() && dst@[i] == x;
                    if i < dst0.len() {
                        assert(dst@.subrange(0, dst0.len() as int)[i] == dst0[i]);
                    }
                    assert(appended(dst0, dst@)[i - dst0.len()] == x);
                }
            }
        }
    }
}

/// Pushing a node on the stack keeps every pending walk back valid.
proof fn lemma_pending_push(g: Map<u64, Set<u64>>, dst: Seq<u64>, stack: Seq<u64>, n: u64)
    requires
        back_edges_pending(g, dst, stack),
    ensures
        back_edges_pending(g, dst, stack.push(n)),
{
    let s2 = stack.push(n);
    assert forall|i: int, v: u64|
        0 <= i < dst.len() && #[trigger] depends_on(g, dst[i], v) && g.contains_key(v)
            && !dst.subrange(0, i).contains(v) implies exists|w: Seq<u64>|
            #[trigger] is_path(g, w) && w[0] == v && w.last() == dst[i] && forall|m: int|
                0 <= m < w.len() ==> placed_between(dst, i, #[trigger] w[m], v) || (s2.contains(v)
                    && above_on_stack(s2, v, w[m])) by {
        let w = choose|w: Seq<u64>|
            #[trigger] is_path(g, w) && w[0] == v && w.last() == dst[i] && forall|m: int|
                0 <= m < w.len() ==> placed_between(dst, i, #[trigger] w[m], v) || (stack.contains(v)
                    && above_on_stack(stack, v, w[m]));
        assert forall|m: int| 0 <= m < w.len() implies placed_between(dst, i, #[trigger] w[m], v) || (
            s2.contains(v) && above_on_stack(s2, v, w[m])) by {
            if !placed_between(dst, i, w[m], v) {
                let (a, b) = choose|a: int, b: int|
                    0 <= a <= b < stack.len() && stack[a] == v && stack[b] == w[m];
                assert(s2[a] == v && s2[b] == w[m]);
            }
        }
    }
}

/// Finishing the node on top of the stack keeps every pending walk back
/// valid, and gives one to each edge of that node to a node still in progress.
proof fn lemma_pending_pop(g: Map<u64, Set<u64>>, dst: Seq<u64>, stack: Seq<u64>, node: u64)
    requires
        back_edges_pending(g, dst, stack.push(node)),
        is_chain(g, stack.push(node)),
        forall|x: u64| #[trigger] stack.push(node).contains(x) ==> !dst.contains(x),
        forall|v: u64|
            #[trigger] depends_on(g, node, v) && g.contains_key(v) ==> dst.contains(v) || stack.push(
                node,
            ).contains(v),
    ensures
        back_edges_pending(g, dst.push(node), stack),
{
    let inner = stack.push(node);
    let d2 = dst.push(node);
    let n = dst.len() as int;
    assert(inner[inner.len() - 1] == node);
    assert(d2.subrange(0, n) =~= dst);
    assert forall|i: int, v: u64|
        0 <= i < d2.len() && #[trigger] depends_on(g, d2[i], v) && g.contains_key(v)
            && !d2.subrange(0, i).contains(v) implies exists|w: Seq<u64>|
            #[trigger] is_path(g, w) && w[0] == v && w.last() == d2[i] && forall|m: int|
                0 <= m < w.len() ==> placed_between(d2, i, #[trigger] w[m], v) || (stack.contains(v)
                    && above_on_stack(stack, v, w[m])) by {
        if i < n {
            assert(d2[i] == dst[i]);
            assert(d2.subrange(0, i) =~= dst.subrange(0, i));
            let w = choose|w: Seq<u64>|
                #[trigger] is_path(g, w) && w[0] == v && w.last() == dst[i] && forall|m: int|
                    0 <= m < w.len() ==> placed_between(dst, i, #[trigger] w[m], v) || (inner.contains(v)
                        && above_on_stack(inner, v, w[m]));
            assert forall|m: int| 0 <= m < w.len() implies placed_between(d2, i, #[trigger] w[m], v) || (
                stack.contains(v) && above_on_stack(stack, v, w[m])) by {
                if placed_between(dst, i, w[m], v) {
                    let j = choose|j: int|
                        i <= j < dst.len() && dst[j] == w[m] && !(#[trigger] dst.subrange(0, j)).contains(v);
                    assert(d2.subrange(0, j) =~= dst.subrange(0, j));
                    assert(d2[j] == w[m]);
                } else {
                    let (a, b) = choose|a: int, b: int|
                        0 <= a <= b < inner.len() && inner[a] == v && inner[b] == w[m];
                    if b == inner.len() - 1 {
                        assert(!dst.contains(v));
                        assert(d2[n] == w[m]);
                    } else {
                        assert(stack[a] == v && stack[b] == w[m]);
                    }
                }
            }
        } else {
            assert(d2[i] == node);
            assert(!dst.contains(v));
            let k = choose|k: int| 0 <= k < inner.len() && inner[k] == v;
            let w = inner.subrange(k, inner.len() as int);
            assert(is_chain(g, w)) by {
                assert forall|t: int| 0 <= t < w.len() - 1 implies #[trigger] depends_on(g, w[t], w[t + 1]) by {
                    assert(depends_on(g, inner[k + t], inner[k + t + 1]));
                }
            }
            assert forall|m: int| 0 <= m < w.len() implies placed_between(d2, i, #[trigger] w[m], v) || (
                stack.contains(v) && above_on_stack(stack, v, w[m])) by {
                if k + m == inner.len() - 1 {
                    assert(d2[n] == w[m]);
                } else {
                    assert(stack[k] == v && stack[k + m] == w[m]);
                }
            }
            assert(is_path(g, w) && w[0] == v && w.last() == d2[i]);
        }
    }
}

/// Along a walk of keys that had no mark, from a finished node, every node
/// is finished by now and was not finished before.
proof fn lemma_walk_is_finished(
    g: Map<u64, Set<u64>>,
    dst0: Seq<u64>,
    dst: Seq<u64>,
    marks0: Map<u64, Mark>,
    marks: Map<u64, Mark>,
    stack: Seq<u64>,
    p: Seq<u64>,
    k: int,
)
    requires
        dfs_inv(g, dst, marks, stack),
        forall|x: u64| #[trigger] stack.contains(x) ==> marks0.contains_key(x),
        forall|x: u64| #[trigger] dst0.contains(x) ==> marks0.contains_key(x),
        is_path(g, p),
        0 <= k < p.len(),
        forall|m: int| 0 <= m < p.len() ==> g.contains_key(#[trigger] p[m]) && !marks0.dom().contains(p[m]),
        dst.contains(p[0]),
    ensures
        dst.contains(p[k]),
        !dst0.contains(p[k]),
    decreases k,
{
    assert(g.contains_key(p[k]) && !marks0.dom().contains(p[k]));
    if k > 0 {
        lemma_walk_is_finished(g, dst0, dst, marks0, marks, stack, p, k - 1);
        let i = choose|i: int| 0 <= i < dst.len() && dst[i] == p[k - 1];
        let t = k - 1;
        assert(depends_on(g, p[t], p[t + 1]));
        assert(depends_on(g, dst[i], p[k]));
        assert(marks.contains_key(p[k]));
        if marks[p[k]] == Mark::InProgress {
            assert(stack.contains(p[k]));
        }
    }
}

/// What a `HashSet` holds is finite: it is what its iterator yields.
proof fn lemma_set_finite(s: &HashSet<u64>)
    ensures
        s@.finite(),
{
    let items = vstd::std_specs::hash::spec_hash_keys_iter(s).remaining().unref();
    assert(items.to_set() == s@);
    vstd::seq_lib::seq_to_set_is_finite(items);
}

/// Whether two successor sets hold the same nodes.
fn same_set(a: &HashSet<u64>, b: &HashSet<u64>) -> (r: bool)
    ensures
        r == (a@ == b@),
{
    if a.len() != b.len() {
        return false;
    }
    for x in it: a.iter()
        invariant
            it.seq().unref().to_set() == a@,
            a@.len() == b@.len(),
            forall|x: u64|
                #[trigger] a@.contains(x) ==> b@.contains(x) || exists|j: int|
                    it.index() <= j < it.seq().len() && *(#[trigger] it.seq()[j]) == x,
    {
        if !b.contains(x) {
            assert(it.seq().unref().to_set().contains(*x));
            return false;
        }
        proof {
            assert forall|y: u64| #[trigger] a@.contains(y) && !b@.contains(y) implies exists|j: int|
                it.index() + 1 <= j < it.seq().len() && *(#[trigger] it.seq()[j]) == y by {
                let j = choose|j: int| it.index() <= j < it.seq().len() && *(#[trigger] it.seq()[j]) == y;
            }
        }
    }
    proof {
        assert(a@.subset_of(b@));
        lemma_set_finite(a);
        lemma_set_finite(b);
        vstd::set_lib::lemma_subset_equality(a@, b@);
    }
    true
}

impl Graph {
    /// Whether the two graphs have the same keys, each with the same successors.
    fn same_edges(&self, other: &Graph) -> (r: bool)
        ensures
            r == (self@ == other@),
    {
        proof {
            self.lemma_view_dom();
            other.lemma_view_dom();
        }
        if self.nodes.len() != other.nodes.len() {
            assert(self@.dom().len() != other@.dom().len());
            return false;
        }
        for item in it: self.nodes.iter()
            invariant
                it.seq().unref().to_set() == self.nodes@.kv_pairs(),
                self@.dom() == self.nodes@.dom(),
                self@.dom().finite(),
                other@.dom().finite(),
                other@.dom() == other.nodes@.dom(),
                self@.dom().len() == other@.dom().len(),
                forall|k: u64|
                    #[trigger] self@.contains_key(k) ==> (other@.contains_key(k) && other@[k] == self@[k])
                        || exists|j: int| it.index() <= j < it.seq().len() && *(#[trigger] it.seq()[j]).0 == k,
        {
            let (node, set) = item;
            proof {
                assert(it.seq().unref().to_set().contains((*node, *set)));
            }
            match other.nodes.get(node) {
                Some(other_set) => {
                    if !same_set(set, other_set) {
                        return false;
                    }
                },
                None => {
                    return false;
                },
            }
            proof {
                assert forall|k: u64|
                    #[trigger] self@.contains_key(k) && !(other@.contains_key(k) && other@[k] == self@[k]) implies exists|j: int|
                        it.index() + 1 <= j < it.seq().len() && *(#[trigger] it.seq()[j]).0 == k by {
                    let j = choose|j: int| it.index() <= j < it.seq().len() && *(#[trigger] it.seq()[j]).0 == k;
                }
            }
        }
        proof {
            assert(self@.dom().subset_of(other@.dom()));
            vstd::set_lib::lemma_subset_equality(self@.dom(), other@.dom());
            assert(self@ =~= other@);
        }
        true
    }
}

impl PartialEq for Graph {
    /// Two graphs are equal when they have the same keys, each with the same successors.
    fn eq(&self, other: &Graph) -> (r: bool)
        ensures
            r == (self@ == other@),
    {
        self.same_edges(other)
    }
}

impl vstd::std_specs::cmp::PartialEqSpecImpl for Graph {
    open spec fn obeys_eq_spec() -> bool {
        true
    }

    open spec fn eq_spec(&self, other: &Graph) -> bool {
        self@ == other@
    }
}

impl Eq for Graph {
}

impl Clone for Graph {
    /// A copy with its own table: changing one leaves the other as it was.
    fn clone(&self) -> (r: Graph)
        ensures
            r@ == self@,
    {
        Graph { nodes: self.nodes.clone() }
    }
}

impl Default for Graph {
    fn default() -> (r: Graph)
        ensures
            r@ == Map::<u64, Set<u64>>::empty(),
    {
        Graph::new()
    }
}

} // verus!
