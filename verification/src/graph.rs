//! The topology graph and its reducer.
//!
//! The compiler derives, from the configuration, a forward graph mapping each
//! transform name to the ordered list of transforms that consume its output.
//! The reducer prunes that graph to exactly the nodes that lie on a path from
//! the test's injection point (the root) to one of its extraction points (the
//! leaves).

use vstd::prelude::*;
use vstd::seq_lib::*;
use vstd::set_lib::*;

verus! {

/// A node of the forward topology graph: a transform name together with the
/// names of the transforms that consume its output, in configuration order.
pub struct GraphNode {
    pub name: String,
    pub next: Vec<String>,
}

/// The abstract value of one graph node.
#[verifier::ext_equal]
pub struct NodeV {
    pub name: Seq<char>,
    pub next: Seq<Seq<char>>,
}

/// The abstract value of a list of names.
pub open spec fn names_view(v: Seq<String>) -> Seq<Seq<char>> {
    v.map_values(|s: String| s@)
}

/// The abstract value of one graph node.
pub open spec fn node_view(n: GraphNode) -> NodeV {
    NodeV { name: n.name@, next: names_view(n.next@) }
}

/// The abstract value of a graph.
pub open spec fn graph_view(g: Seq<GraphNode>) -> Seq<NodeV> {
    g.map_values(|n: GraphNode| node_view(n))
}

/// Node names are pairwise distinct.
pub open spec fn gr_wf(g: Seq<NodeV>) -> bool {
    forall|i: int, j: int| 0 <= i < j < g.len() ==> g[i].name != g[j].name
}

/// The graph has a node named `x`.
pub open spec fn has_node(g: Seq<NodeV>, x: Seq<char>) -> bool {
    exists|i: int| 0 <= i < g.len() && g[i].name == x
}

/// The node named `x` (meaningful when `has_node(g, x)` and `gr_wf(g)`).
pub open spec fn node_at(g: Seq<NodeV>, x: Seq<char>) -> NodeV {
    g[choose|i: int| 0 <= i < g.len() && g[i].name == x]
}

/// There is an edge from `a` to `b`.
pub open spec fn edge(g: Seq<NodeV>, a: Seq<char>, b: Seq<char>) -> bool {
    has_node(g, a) && node_at(g, a).next.contains(b)
}

/// `p` is a non-empty walk along edges of `g`.
pub open spec fn is_path(g: Seq<NodeV>, p: Seq<Seq<char>>) -> bool {
    p.len() >= 1 && forall|k: int| 0 <= k < p.len() - 1 ==> #[trigger] edge(g, p[k], p[k + 1])
}

/// `b` is reachable from `a` (in zero or more steps).
pub open spec fn reaches(g: Seq<NodeV>, a: Seq<char>, b: Seq<char>) -> bool {
    exists|p: Seq<Seq<char>>| is_path(g, p) && p.first() == a && p.last() == b
}

/// Some leaf is reachable from `n`.
pub open spec fn links_to_leaf(g: Seq<NodeV>, leaves: Seq<Seq<char>>, n: Seq<char>) -> bool {
    exists|m: Seq<char>| reaches(g, n, m) && leaves.contains(m)
}

/// `n` lies on a walk from the root to some leaf: it is reachable from the
/// root and some leaf is reachable from it.
pub open spec fn on_connecting_path(
    g: Seq<NodeV>,
    root: Seq<char>,
    leaves: Seq<Seq<char>>,
    n: Seq<char>,
) -> bool {
    reaches(g, root, n) && links_to_leaf(g, leaves, n)
}

/// The set of nodes reachable from `a`.
pub open spec fn reach_set(g: Seq<NodeV>, a: Seq<char>) -> Set<Seq<char>> {
    Set::new(|x: Seq<char>| reaches(g, a, x))
}

/// No edge leads back to a node from which it is reachable.
pub open spec fn acyclic(g: Seq<NodeV>) -> bool {
    forall|a: Seq<char>, b: Seq<char>| #[trigger] edge(g, a, b) ==> !reaches(g, b, a)
}

// ------------------------------------------------------------------
// Basic path lemmas.
// ------------------------------------------------------------------

pub proof fn lemma_path_edge(g: Seq<NodeV>, p: Seq<Seq<char>>, k: int)
    requires
        is_path(g, p),
        0 <= k < p.len() - 1,
    ensures
        edge(g, p[k], p[k + 1]),
{
}

pub proof fn lemma_reaches_refl(g: Seq<NodeV>, a: Seq<char>)
    ensures
        reaches(g, a, a),
{
    let p = seq![a];
    assert(is_path(g, p) && p.first() == a && p.last() == a);
}

pub proof fn lemma_reaches_trans(g: Seq<NodeV>, a: Seq<char>, b: Seq<char>, c: Seq<char>)
    requires
        reaches(g, a, b),
        reaches(g, b, c),
    ensures
        reaches(g, a, c),
{
    let p1 = choose|p: Seq<Seq<char>>| is_path(g, p) && p.first() == a && p.last() == b;
    let p2 = choose|p: Seq<Seq<char>>| is_path(g, p) && p.first() == b && p.last() == c;
    let p = p1 + p2.drop_first();
    if p2.len() == 1 {
        assert(p =~= p1);
        assert(is_path(g, p) && p.first() == a && p.last() == c);
    } else {
        assert(p.len() == p1.len() + p2.len() - 1);
        assert forall|k: int| 0 <= k < p.len() - 1 implies #[trigger] edge(g, p[k], p[k + 1]) by {
            if k < p1.len() - 1 {
                assert(p[k] == p1[k] && p[k + 1] == p1[k + 1]);
            } else if k == p1.len() - 1 {
                assert(p[k] == p1[p1.len() - 1]);
                assert(p1.last() == b && p2.first() == b);
                assert(p[k + 1] == p2[1]);
                assert(edge(g, p2[0], p2[1]));
            } else {
                let m = k - p1.len() + 1;
                assert(p[k] == p2[m] && p[k + 1] == p2[m + 1]);
                assert(edge(g, p2[m], p2[m + 1]));
            }
        }
        assert(is_path(g, p));
        assert(p.first() == a);
        assert(p.last() == p2.last());
    }
}

pub proof fn lemma_reaches_step(g: Seq<NodeV>, a: Seq<char>, b: Seq<char>)
    requires
        edge(g, a, b),
    ensures
        reaches(g, a, b),
{
    let p = seq![a, b];
    assert(p.first() == a && p.last() == b);
    assert forall|k: int| 0 <= k < p.len() - 1 implies #[trigger] edge(g, p[k], p[k + 1]) by {
        assert(p[0] == a && p[1] == b);
    }
    assert(is_path(g, p));
}

/// Any prefix and any suffix of a walk is a walk, so every node on a walk is
/// reachable from its first node and reaches its last node.
pub proof fn lemma_path_node(g: Seq<NodeV>, p: Seq<Seq<char>>, k: int)
    requires
        is_path(g, p),
        0 <= k < p.len(),
    ensures
        reaches(g, p.first(), p[k]),
        reaches(g, p[k], p.last()),
{
    let pre = p.take(k + 1);
    assert(pre.len() == k + 1 >= 1);
    assert forall|m: int| 0 <= m < pre.len() - 1 implies #[trigger] edge(g, pre[m], pre[m + 1]) by {
        assert(pre[m] == p[m] && pre[m + 1] == p[m + 1]);
    }
    assert(is_path(g, pre) && pre.first() == p.first() && pre.last() == p[k]);
    let suf = p.skip(k);
    assert(suf.len() == p.len() - k >= 1);
    assert forall|m: int| 0 <= m < suf.len() - 1 implies #[trigger] edge(g, suf[m], suf[m + 1]) by {
        assert(suf[m] == p[k + m] && suf[m + 1] == p[k + m + 1]);
    }
    assert(is_path(g, suf) && suf.first() == p[k] && suf.last() == p.last());
}

/// A non-trivial reachability has a first step.
pub proof fn lemma_reaches_first_step(g: Seq<NodeV>, a: Seq<char>, x: Seq<char>)
    requires
        reaches(g, a, x),
        x != a,
    ensures
        exists|b: Seq<char>| #[trigger] edge(g, a, b) && reaches(g, b, x),
{
    let p = choose|p: Seq<Seq<char>>| is_path(g, p) && p.first() == a && p.last() == x;
    assert(p.len() >= 2);
    let b = p[1];
    lemma_path_edge(g, p, 0);
    assert(edge(g, p[0], p[1]));
    lemma_path_node(g, p, 1);
    assert(reaches(g, b, x));
}

/// Everything reachable from `a` is `a` itself or a child name occurring in
/// the graph.
pub proof fn lemma_reach_in_universe(g: Seq<NodeV>, a: Seq<char>, x: Seq<char>)
    requires
        reaches(g, a, x),
        x != a,
    ensures
        all_child_names(g).contains(x),
{
    let p = choose|p: Seq<Seq<char>>| is_path(g, p) && p.first() == a && p.last() == x;
    assert(p.len() >= 2);
    let k = p.len() - 2;
    lemma_path_edge(g, p, k);
    assert(p[k + 1] == x);
    lemma_edge_target_in_children(g, p[k], x);
}

/// The multiset-free collection of every child name in the graph.
pub open spec fn all_child_names(g: Seq<NodeV>) -> Set<Seq<char>> {
    Set::new(|x: Seq<char>| exists|i: int| 0 <= i < g.len() && #[trigger] g[i].next.contains(x))
}

pub proof fn lemma_edge_target_in_children(g: Seq<NodeV>, a: Seq<char>, b: Seq<char>)
    requires
        edge(g, a, b),
    ensures
        all_child_names(g).contains(b),
{
    let i = choose|i: int| 0 <= i < g.len() && g[i].name == a;
    assert(g[i] == node_at(g, a) || node_at(g, a).next.contains(b));
    let j = choose|j: int| 0 <= j < g.len() && g[j].name == a;
    assert(g[j].next.contains(b));
}

/// A sequence of all child names, to bound the cardinality of `reach_set`.
pub open spec fn child_names_seq(g: Seq<NodeV>) -> Seq<Seq<char>>
    decreases g.len(),
{
    if g.len() == 0 {
        Seq::empty()
    } else {
        child_names_seq(g.drop_last()) + g.last().next
    }
}

pub proof fn lemma_child_names_seq(g: Seq<NodeV>, x: Seq<char>)
    requires
        all_child_names(g).contains(x),
    ensures
        child_names_seq(g).contains(x),
    decreases g.len(),
{
    let i = choose|i: int| 0 <= i < g.len() && #[trigger] g[i].next.contains(x);
    if i == g.len() - 1 {
        let j = choose|j: int| 0 <= j < g.last().next.len() && g.last().next[j] == x;
        assert(child_names_seq(g)[child_names_seq(g.drop_last()).len() + j] == x);
    } else {
        assert(g.drop_last()[i].next.contains(x));
        lemma_child_names_seq(g.drop_last(), x);
        let j = choose|j: int|
            0 <= j < child_names_seq(g.drop_last()).len() && child_names_seq(g.drop_last())[j]
                == x;
        assert(child_names_seq(g)[j] == x);
    }
}

/// The set of nodes reachable from `a` is finite, with cardinality at most
/// the number of child-name occurrences plus one.
pub proof fn lemma_reach_finite(g: Seq<NodeV>, a: Seq<char>)
    ensures
        reach_set(g, a).finite(),
        reach_set(g, a).len() <= child_names_seq(g).len() + 1,
{
    let uni = child_names_seq(g).to_set().insert(a);
    assert forall|x: Seq<char>| reach_set(g, a).contains(x) implies uni.contains(x) by {
        if x != a {
            lemma_reach_in_universe(g, a, x);
            lemma_child_names_seq(g, x);
        }
    }
    child_names_seq(g).lemma_cardinality_of_set();
    lemma_len_subset(reach_set(g, a), uni);
}

/// Stepping along an edge strictly shrinks the reachable set of an acyclic
/// graph.
pub proof fn lemma_reach_strict_subset(g: Seq<NodeV>, a: Seq<char>, b: Seq<char>)
    requires
        acyclic(g),
        edge(g, a, b),
    ensures
        reach_set(g, b).len() < reach_set(g, a).len(),
{
    assert forall|x: Seq<char>| reach_set(g, b).contains(x) implies reach_set(g, a).contains(
        x,
    ) by {
        lemma_reaches_step(g, a, b);
        lemma_reaches_trans(g, a, b, x);
    }
    lemma_reaches_refl(g, a);
    assert(reach_set(g, a).contains(a));
    assert(!reaches(g, b, a));
    assert(!reach_set(g, b).contains(a));
    lemma_reach_finite(g, a);
    reach_set(g, b).lemma_subset_not_in_lt(reach_set(g, a), a);
}

/// A set that contains `a` and is closed under edges contains everything
/// reachable from `a`.
pub proof fn lemma_closed_contains_path(g: Seq<NodeV>, s: Set<Seq<char>>, p: Seq<Seq<char>>)
    requires
        is_path(g, p),
        s.contains(p.first()),
        forall|u: Seq<char>, v: Seq<char>|
            s.contains(u) && #[trigger] edge(g, u, v) ==> s.contains(v),
    ensures
        s.contains(p.last()),
    decreases p.len(),
{
    if p.len() > 1 {
        lemma_path_edge(g, p, 0);
        assert(edge(g, p[0], p[1]));
        let q = p.skip(1);
        assert forall|m: int| 0 <= m < q.len() - 1 implies #[trigger] edge(g, q[m], q[m + 1]) by {
            assert(q[m] == p[m + 1] && q[m + 1] == p[m + 2]);
        }
        assert(is_path(g, q) && q.first() == p[1] && q.last() == p.last());
        lemma_closed_contains_path(g, s, q);
    }
}

/// `x` occurs in the list of names.
pub open spec fn in_names(s: Seq<String>, x: Seq<char>) -> bool {
    exists|i: int| 0 <= i < s.len() && s[i]@ == x
}

/// With distinct names, the node at a matching index is the node the name
/// denotes.
pub proof fn lemma_node_at(g: Seq<NodeV>, i: int)
    requires
        gr_wf(g),
        0 <= i < g.len(),
    ensures
        has_node(g, g[i].name),
        node_at(g, g[i].name) == g[i],
{
    assert(has_node(g, g[i].name));
    let j = choose|j: int| 0 <= j < g.len() && g[j].name == g[i].name;
    assert(j == i);
}

/// Whether a list of names contains the given name.
pub fn contains_str(v: &Vec<String>, x: &String) -> (b: bool)
    ensures
        b == in_names(v@, x@),
{
    let mut i: usize = 0;
    while i < v.len()
        invariant
            i <= v@.len(),
            forall|k: int| 0 <= k < i ==> v@[k]@ != x@,
        decreases v@.len() - i,
    {
        if v[i] == *x {
            return true;
        }
        i += 1;
    }
    false
}

/// Finds the index of the node with the given name.
pub fn find_node(g: &Vec<GraphNode>, x: &String) -> (r: Option<usize>)
    ensures
        match r {
            Some(i) => i < g@.len() && g@[i as int].name@ == x@,
            None => !has_node(graph_view(g@), x@),
        },
{
    let mut i: usize = 0;
    while i < g.len()
        invariant
            i <= g@.len(),
            forall|k: int| 0 <= k < i ==> g@[k].name@ != x@,
        decreases g@.len() - i,
    {
        if g[i].name == *x {
            return Some(i);
        }
        i += 1;
    }
    None
}

/// Membership in a name list survives appending.
proof fn lemma_in_names_push(s: Seq<String>, c: String, x: Seq<char>)
    requires
        in_names(s, x),
    ensures
        in_names(s.push(c), x),
{
    let i = choose|i: int| 0 <= i < s.len() && s[i]@ == x;
    assert(s.push(c)[i]@ == x);
}

/// Computes the names reachable from `start`, without duplicates.
pub fn reachable_from(g: &Vec<GraphNode>, start: &String) -> (vs: Vec<String>)
    requires
        gr_wf(graph_view(g@)),
    ensures
        forall|k: int| 0 <= k < vs@.len() ==> reaches(graph_view(g@), start@, #[trigger] vs@[k]@),
        forall|x: Seq<char>| #[trigger] reaches(graph_view(g@), start@, x) ==> in_names(vs@, x),
        forall|i: int, j: int| 0 <= i < j < vs@.len() ==> vs@[i]@ != vs@[j]@,
{
    let ghost gv = graph_view(g@);
    let mut visited: Vec<String> = Vec::new();
    let mut stack: Vec<String> = Vec::new();
    visited.push(start.clone());
    stack.push(start.clone());
    proof {
        lemma_reaches_refl(gv, start@);
        lemma_reach_finite(gv, start@);
        assert(visited@[0]@ == start@);
        assert(in_names(visited@, start@));
        assert(reach_set(gv, start@).contains(start@));
        assert forall|x: Seq<char>|
            names_view(visited@).to_set().contains(x) implies reach_set(gv, start@).contains(
            x,
        ) by {
            let k = choose|k: int|
                0 <= k < names_view(visited@).len() && names_view(visited@)[k] == x;
            assert(k == 0);
            assert(visited@[0]@ == x);
        }
        names_view(visited@).unique_seq_to_set();
        lemma_len_subset(names_view(visited@).to_set(), reach_set(gv, start@));
    }
    while stack.len() > 0
        invariant
            gv == graph_view(g@),
            gr_wf(gv),
            in_names(visited@, start@),
            forall|k: int| 0 <= k < visited@.len() ==> reaches(gv, start@, #[trigger] visited@[k]@),
            forall|i: int, j: int| 0 <= i < j < visited@.len() ==> visited@[i]@ != visited@[j]@,
            forall|k: int| 0 <= k < stack@.len() ==> in_names(visited@, #[trigger] stack@[k]@),
            forall|i: int, j: int| 0 <= i < j < stack@.len() ==> stack@[i]@ != stack@[j]@,
            forall|k: int, c: Seq<char>|
                0 <= k < visited@.len() && !in_names(stack@, visited@[k]@) && #[trigger] edge(
                    gv,
                    visited@[k]@,
                    c,
                ) ==> in_names(visited@, c),
            visited@.len() <= reach_set(gv, start@).len(),
        decreases reach_set(gv, start@).len() - visited@.len(), stack@.len(),
    {
        let ghost stack0 = stack@;
        let ghost vlen0 = visited@.len() as int;
        let node = stack.pop().unwrap();
        proof {
            assert(node == stack0.last());
            assert(stack@ == stack0.drop_last());
            assert(!in_names(stack@, node@)) by {
                if in_names(stack@, node@) {
                    let i = choose|i: int| 0 <= i < stack@.len() && stack@[i]@ == node@;
                    assert(stack0[i]@ == node@);
                    assert(stack0[stack0.len() - 1]@ == node@);
                }
            }
            assert forall|v: Seq<char>| !in_names(stack@, v) && v != node@ implies !in_names(
                stack0,
                v,
            ) by {
                if in_names(stack0, v) {
                    let i = choose|i: int| 0 <= i < stack0.len() && stack0[i]@ == v;
                    if i < stack0.len() - 1 {
                        assert(stack@[i]@ == v);
                    }
                }
            }
            assert forall|k: int, c: Seq<char>|
                0 <= k < visited@.len() && visited@[k]@ != node@ && !in_names(
                    stack@,
                    visited@[k]@,
                ) && #[trigger] edge(gv, visited@[k]@, c) implies in_names(visited@, c) by {
                assert(!in_names(stack0, visited@[k]@));
            }
        }
        if let Some(i) = find_node(g, &node) {
            proof {
                lemma_node_at(gv, i as int);
            }
            let mut j: usize = 0;
            while j < g[i].next.len()
                invariant
                    gv == graph_view(g@),
                    gr_wf(gv),
                    i < g@.len(),
                    g@[i as int].name@ == node@,
                    node_at(gv, node@) == gv[i as int],
                    in_names(visited@, node@),
                    j <= g@[i as int].next@.len(),
                    in_names(visited@, start@),
                    forall|k: int|
                        0 <= k < visited@.len() ==> reaches(gv, start@, #[trigger] visited@[k]@),
                    forall|ii: int, jj: int|
                        0 <= ii < jj < visited@.len() ==> visited@[ii]@ != visited@[jj]@,
                    forall|k: int| 0 <= k < stack@.len() ==> in_names(visited@, #[trigger] stack@[k]@),
                    forall|ii: int, jj: int|
                        0 <= ii < jj < stack@.len() ==> stack@[ii]@ != stack@[jj]@,
                    !in_names(stack@, node@),
                    forall|k: int, c: Seq<char>|
                        0 <= k < visited@.len() && visited@[k]@ != node@ && !in_names(
                            stack@,
                            visited@[k]@,
                        ) && #[trigger] edge(gv, visited@[k]@, c) ==> in_names(visited@, c),
                    forall|jj: int|
                        0 <= jj < j ==> in_names(visited@, #[trigger] g@[i as int].next@[jj]@),
                    visited@.len() <= reach_set(gv, start@).len(),
                    visited@.len() >= vlen0,
                    visited@.len() - vlen0 == stack@.len() - (stack0.len() - 1),
                decreases g@[i as int].next@.len() - j,
            {
                let c = &g[i].next[j];
                if !contains_str(&visited, c) {
                    let ghost visited0 = visited@;
                    let ghost stack1 = stack@;
                    visited.push(c.clone());
                    stack.push(c.clone());
                    proof {
                        assert(visited@ == visited0.push(visited@[visited0.len() as int]));
                        assert(visited@[visited0.len() as int]@ == c@);
                        assert forall|x: Seq<char>| in_names(visited0, x) implies in_names(
                            visited@,
                            x,
                        ) by {
                            let k = choose|k: int| 0 <= k < visited0.len() && visited0[k]@ == x;
                            assert(visited@[k]@ == x);
                        }
                        assert forall|x: Seq<char>| in_names(stack1, x) implies in_names(
                            stack@,
                            x,
                        ) by {
                            let k = choose|k: int| 0 <= k < stack1.len() && stack1[k]@ == x;
                            assert(stack@[k]@ == x);
                        }
                        assert(in_names(visited@, c@));
                        assert(names_view(g@[i as int].next@)[j as int] == c@);
                        assert(edge(gv, node@, c@));
                        let k0 = choose|k0: int| 0 <= k0 < visited0.len() && visited0[k0]@ == node@;
                        assert(reaches(gv, start@, visited0[k0]@));
                        lemma_reaches_step(gv, node@, c@);
                        lemma_reaches_trans(gv, start@, node@, c@);
                        assert forall|x: Seq<char>|
                            names_view(visited@).to_set().contains(x) implies reach_set(
                            gv,
                            start@,
                        ).contains(x) by {
                            let k = choose|k: int|
                                0 <= k < visited@.len() && names_view(visited@)[k] == x;
                            assert(visited@[k]@ == x);
                            assert(reaches(gv, start@, visited@[k]@));
                        }
                        names_view(visited@).unique_seq_to_set();
                        lemma_reach_finite(gv, start@);
                        lemma_len_subset(names_view(visited@).to_set(), reach_set(gv, start@));
                        assert forall|k: int, cc: Seq<char>|
                            0 <= k < visited@.len() && visited@[k]@ != node@ && !in_names(
                                stack@,
                                visited@[k]@,
                            ) && #[trigger] edge(gv, visited@[k]@, cc) implies in_names(
                            visited@,
                            cc,
                        ) by {
                            if k < visited0.len() {
                                assert(visited0[k]@ == visited@[k]@);
                                assert(!in_names(stack1, visited0[k]@));
                                assert(in_names(visited0, cc));
                            } else {
                                assert(visited@[k]@ == c@);
                                assert(in_names(stack@, c@)) by {
                                    assert(stack@[stack1.len() as int]@ == c@);
                                }
                            }
                        }
                    }
                } else {
                    proof {
                        assert(in_names(visited@, c@));
                    }
                }
                proof {
                    assert(g@[i as int].next@[j as int]@ == c@);
                }
                j += 1;
            }
            proof {
                assert forall|k: int, c: Seq<char>|
                    0 <= k < visited@.len() && !in_names(stack@, visited@[k]@) && #[trigger] edge(
                        gv,
                        visited@[k]@,
                        c,
                    ) implies in_names(visited@, c) by {
                    if visited@[k]@ == node@ {
                        assert(node_at(gv, node@).next == names_view(g@[i as int].next@));
                        let jj = choose|jj: int|
                            0 <= jj < names_view(g@[i as int].next@).len() && names_view(
                                g@[i as int].next@,
                            )[jj] == c;
                        assert(g@[i as int].next@[jj]@ == c);
                        assert(in_names(visited@, g@[i as int].next@[jj]@));
                    }
                }
            }
        } else {
            proof {
                assert forall|k: int, c: Seq<char>|
                    0 <= k < visited@.len() && !in_names(stack@, visited@[k]@) && #[trigger] edge(
                        gv,
                        visited@[k]@,
                        c,
                    ) implies in_names(visited@, c) by {
                    if visited@[k]@ == node@ {
                        assert(has_node(gv, node@));
                        assert(false);
                    }
                }
            }
        }
    }
    proof {
        let s = Set::new(|x: Seq<char>| in_names(visited@, x));
        assert forall|x: Seq<char>| #[trigger]
            reaches(gv, start@, x) implies in_names(visited@, x) by {
            let p = choose|p: Seq<Seq<char>>|
                is_path(gv, p) && p.first() == start@ && p.last() == x;
            assert(s.contains(start@));
            assert forall|u: Seq<char>, v: Seq<char>|
                s.contains(u) && #[trigger] edge(gv, u, v) implies s.contains(v) by {
                let k = choose|k: int| 0 <= k < visited@.len() && visited@[k]@ == u;
                assert(!in_names(stack@, visited@[k]@));
                assert(in_names(visited@, v));
            }
            lemma_closed_contains_path(gv, s, p);
        }
    }
    visited
}

/// Whether some leaf is reachable from `target` in the graph: the decision
/// the reducer makes for every node.
pub fn links_to_a_leaf(target: &String, leaves: &Vec<String>, g: &Vec<GraphNode>) -> (b: bool)
    requires
        gr_wf(graph_view(g@)),
    ensures
        b == links_to_leaf(graph_view(g@), names_view(leaves@), target@),
{
    let ghost gv = graph_view(g@);
    let reach = reachable_from(g, target);
    let mut i: usize = 0;
    while i < reach.len()
        invariant
            gv == graph_view(g@),
            i <= reach@.len(),
            forall|k: int| 0 <= k < reach@.len() ==> reaches(gv, target@, #[trigger] reach@[k]@),
            forall|x: Seq<char>| #[trigger] reaches(gv, target@, x) ==> in_names(reach@, x),
            forall|k: int| 0 <= k < i ==> !names_view(leaves@).contains(#[trigger] reach@[k]@),
        decreases reach@.len() - i,
    {
        if contains_str(leaves, &reach[i]) {
            proof {
                let j = choose|j: int| 0 <= j < leaves@.len() && leaves@[j]@ == reach@[i as int]@;
                assert(names_view(leaves@)[j] == reach@[i as int]@);
                assert(names_view(leaves@).contains(reach@[i as int]@));
                assert(reaches(gv, target@, reach@[i as int]@));
                assert(links_to_leaf(gv, names_view(leaves@), target@));
            }
            return true;
        }
        i += 1;
    }
    proof {
        if links_to_leaf(gv, names_view(leaves@), target@) {
            let m = choose|m: Seq<char>|
                reaches(gv, target@, m) && names_view(leaves@).contains(m);
            let k = choose|k: int| 0 <= k < reach@.len() && reach@[k]@ == m;
            assert(!names_view(leaves@).contains(reach@[k]@));
        }
    }
    false
}


// ------------------------------------------------------------------
// The reducer.
// ------------------------------------------------------------------

/// A node is retained iff it is the root or lies on a root-to-leaf walk.
pub open spec fn keep_node(
    g0: Seq<NodeV>,
    root: Seq<char>,
    leaves: Seq<Seq<char>>,
    n: Seq<char>,
) -> bool {
    n == root || on_connecting_path(g0, root, leaves, n)
}

/// A child of a retained non-root node is kept iff it lies on a root-to-leaf
/// walk itself.
pub open spec fn keep_child(
    g0: Seq<NodeV>,
    root: Seq<char>,
    leaves: Seq<Seq<char>>,
    c: Seq<char>,
) -> bool {
    on_connecting_path(g0, root, leaves, c)
}

/// The kept children, in their original order.
pub open spec fn kept_children(
    g0: Seq<NodeV>,
    root: Seq<char>,
    leaves: Seq<Seq<char>>,
    s: Seq<Seq<char>>,
) -> Seq<Seq<char>>
    decreases s.len(),
{
    if s.len() == 0 {
        Seq::empty()
    } else {
        let rest = kept_children(g0, root, leaves, s.drop_last());
        if keep_child(g0, root, leaves, s.last()) {
            rest.push(s.last())
        } else {
            rest
        }
    }
}

/// A retained node after pruning: the root keeps all its children, any other
/// retained node keeps only children on a root-to-leaf walk.
pub open spec fn prune_node(
    g0: Seq<NodeV>,
    root: Seq<char>,
    leaves: Seq<Seq<char>>,
    n: NodeV,
) -> NodeV {
    if n.name == root {
        n
    } else {
        NodeV { name: n.name, next: kept_children(g0, root, leaves, n.next) }
    }
}

/// The retained and pruned nodes of `s`, in their original order.
pub open spec fn reduced_rec(
    g0: Seq<NodeV>,
    root: Seq<char>,
    leaves: Seq<Seq<char>>,
    s: Seq<NodeV>,
) -> Seq<NodeV>
    decreases s.len(),
{
    if s.len() == 0 {
        Seq::empty()
    } else {
        let rest = reduced_rec(g0, root, leaves, s.drop_last());
        if keep_node(g0, root, leaves, s.last().name) {
            rest.push(prune_node(g0, root, leaves, s.last()))
        } else {
            rest
        }
    }
}

/// The reduced graph: empty when no leaf is reachable from the root, and
/// otherwise exactly the nodes on a root-to-leaf walk, with the non-root
/// nodes' edge lists pruned accordingly.
pub open spec fn reduced(g0: Seq<NodeV>, root: Seq<char>, leaves: Seq<Seq<char>>) -> Seq<NodeV> {
    if links_to_leaf(g0, leaves, root) {
        reduced_rec(g0, root, leaves, g0)
    } else {
        Seq::empty()
    }
}

/// Every element of `reduced_rec` is a pruned element of `s` whose name is
/// kept, and conversely.
pub proof fn lemma_reduced_rec_membership(
    g0: Seq<NodeV>,
    root: Seq<char>,
    leaves: Seq<Seq<char>>,
    s: Seq<NodeV>,
    x: Seq<char>,
)
    ensures
        has_node(reduced_rec(g0, root, leaves, s), x) <==> (exists|i: int|
            0 <= i < s.len() && s[i].name == x) && keep_node(g0, root, leaves, x),
    decreases s.len(),
{
    let r = reduced_rec(g0, root, leaves, s);
    if s.len() == 0 {
    } else {
        let rest = reduced_rec(g0, root, leaves, s.drop_last());
        lemma_reduced_rec_membership(g0, root, leaves, s.drop_last(), x);
        if keep_node(g0, root, leaves, s.last().name) {
            assert(r == rest.push(prune_node(g0, root, leaves, s.last())));
            if has_node(r, x) {
                let i = choose|i: int| 0 <= i < r.len() && r[i].name == x;
                if i < rest.len() {
                    assert(has_node(rest, x));
                } else {
                    assert(r[i] == prune_node(g0, root, leaves, s.last()));
                    assert(s.last().name == x);
                    assert(s[s.len() - 1].name == x);
                }
            }
            if (exists|i: int| 0 <= i < s.len() && s[i].name == x) && keep_node(
                g0,
                root,
                leaves,
                x,
            ) {
                let i = choose|i: int| 0 <= i < s.len() && s[i].name == x;
                if i < s.len() - 1 {
                    assert(s.drop_last()[i].name == x);
                    assert(has_node(rest, x));
                    let j = choose|j: int| 0 <= j < rest.len() && rest[j].name == x;
                    assert(r[j].name == x);
                } else {
                    assert(r[rest.len() as int].name == x);
                }
            }
        } else {
            assert(r == rest);
            if has_node(r, x) {
            }
            if (exists|i: int| 0 <= i < s.len() && s[i].name == x) && keep_node(
                g0,
                root,
                leaves,
                x,
            ) {
                let i = choose|i: int| 0 <= i < s.len() && s[i].name == x;
                assert(i < s.len() - 1);
                assert(s.drop_last()[i].name == x);
            }
        }
    }
}

/// Reducing preserves well-formedness.
pub proof fn lemma_reduced_rec_wf(
    g0: Seq<NodeV>,
    root: Seq<char>,
    leaves: Seq<Seq<char>>,
    s: Seq<NodeV>,
)
    requires
        forall|i: int, j: int| 0 <= i < j < s.len() ==> s[i].name != s[j].name,
    ensures
        gr_wf(reduced_rec(g0, root, leaves, s)),
    decreases s.len(),
{
    if s.len() > 0 {
        let rest = reduced_rec(g0, root, leaves, s.drop_last());
        lemma_reduced_rec_wf(g0, root, leaves, s.drop_last());
        if keep_node(g0, root, leaves, s.last().name) {
            let r = rest.push(prune_node(g0, root, leaves, s.last()));
            assert forall|i: int, j: int| 0 <= i < j < r.len() implies r[i].name != r[j].name by {
                if j == r.len() - 1 {
                    lemma_reduced_rec_membership(g0, root, leaves, s.drop_last(), r[i].name);
                    assert(has_node(rest, r[i].name));
                    let k = choose|k: int|
                        0 <= k < s.drop_last().len() && s.drop_last()[k].name == r[i].name;
                    assert(s[k].name == r[i].name);
                    assert(s[k].name != s.last().name);
                }
            }
        }
    }
}

/// The exec test for whether a child of a retained non-root node is kept.
fn child_kept(
    c: &String,
    root: &String,
    leaves: &Vec<String>,
    g: &Vec<GraphNode>,
    reach: &Vec<String>,
) -> (b: bool)
    requires
        gr_wf(graph_view(g@)),
        forall|k: int| 0 <= k < reach@.len() ==> reaches(graph_view(g@), root@, #[trigger] reach@[k]@),
        forall|x: Seq<char>| #[trigger] reaches(graph_view(g@), root@, x) ==> in_names(reach@, x),
    ensures
        b == keep_child(graph_view(g@), root@, names_view(leaves@), c@),
{
    if contains_str(reach, c) {
        proof {
            let k = choose|k: int| 0 <= k < reach@.len() && reach@[k]@ == c@;
            assert(reaches(graph_view(g@), root@, reach@[k]@));
        }
        links_to_a_leaf(c, leaves, g)
    } else {
        proof {
            if reaches(graph_view(g@), root@, c@) {
                assert(in_names(reach@, c@));
            }
        }
        false
    }
}

/// Reduces the graph in place: it retains exactly the nodes that lie on a
/// walk from `root` to one of the `leaves`, with the non-root nodes' edge
/// lists restricted accordingly. If no leaf is reachable from the root, the
/// graph becomes empty.
pub fn reduce_transforms(root: &String, leaves: &Vec<String>, g: &mut Vec<GraphNode>)
    requires
        gr_wf(graph_view(old(g)@)),
    ensures
        graph_view(final(g)@) == reduced(graph_view(old(g)@), root@, names_view(leaves@)),
        gr_wf(graph_view(final(g)@)),
{
    let ghost g0 = graph_view(g@);
    let ghost leavesv = names_view(leaves@);
    if !links_to_a_leaf(root, leaves, g) {
        let empty: Vec<GraphNode> = Vec::new();
        *g = empty;
        proof {
            assert(graph_view(g@) =~= reduced(g0, root@, leavesv));
        }
        return;
    }
    let reach = reachable_from(g, root);
    let mut out: Vec<GraphNode> = Vec::new();
    proof {
        assert(graph_view(out@) =~~= reduced_rec(g0, root@, leavesv, g0.take(0)));
    }
    let mut i: usize = 0;
    while i < g.len()
        invariant
            g0 == graph_view(g@),
            leavesv == names_view(leaves@),
            gr_wf(g0),
            i <= g@.len(),
            forall|k: int| 0 <= k < reach@.len() ==> reaches(g0, root@, #[trigger] reach@[k]@),
            forall|x: Seq<char>| #[trigger] reaches(g0, root@, x) ==> in_names(reach@, x),
            graph_view(out@) == reduced_rec(g0, root@, leavesv, g0.take(i as int)),
        decreases g@.len() - i,
    {
        let ghost prefix = g0.take(i as int);
        proof {
            assert(g0.take(i + 1 as int).drop_last() =~= prefix);
            assert(g0.take(i + 1 as int).last() == g0[i as int]);
        }
        let name_is_root = g[i].name == *root;
        let keep = if name_is_root {
            true
        } else {
            let in_reach = contains_str(&reach, &g[i].name);
            if in_reach {
                proof {
                    let k = choose|k: int| 0 <= k < reach@.len() && reach@[k]@ == g@[i as int].name@;
                    assert(reaches(g0, root@, reach@[k]@));
                }
                links_to_a_leaf(&g[i].name, leaves, g)
            } else {
                proof {
                    if reaches(g0, root@, g@[i as int].name@) {
                        assert(in_names(reach@, g@[i as int].name@));
                    }
                }
                false
            }
        };
        proof {
            assert(keep == keep_node(g0, root@, leavesv, g0[i as int].name));
        }
        if keep {
            let mut next: Vec<String> = Vec::new();
            if name_is_root {
                proof {
                    assert(names_view(next@) =~~= names_view(g@[i as int].next@).take(0));
                }
                let mut j: usize = 0;
                while j < g[i].next.len()
                    invariant
                        g0 == graph_view(g@),
                        i < g@.len(),
                        j <= g@[i as int].next@.len(),
                        next@.len() == j,
                        names_view(next@) == names_view(g@[i as int].next@).take(j as int),
                    decreases g@[i as int].next@.len() - j,
                {
                    next.push(g[i].next[j].clone());
                    proof {
                        assert(next@.last() == g@[i as int].next@[j as int]);
                        assert(names_view(next@).len() == j + 1);
                        assert forall|k: int| 0 <= k < j + 1 implies names_view(next@)[k]
                            == names_view(g@[i as int].next@).take(j + 1 as int)[k] by {
                            if k < j {
                                assert(names_view(next@)[k] == next@[k]@);
                            } else {
                                assert(next@[k] == g@[i as int].next@[j as int]);
                            }
                        }
                        assert(names_view(next@) =~~= names_view(g@[i as int].next@).take(
                            j + 1 as int,
                        ));
                    }
                    j += 1;
                }
                proof {
                    assert(names_view(next@) =~~= names_view(g@[i as int].next@));
                }
            } else {
                proof {
                    assert(names_view(next@) =~~= kept_children(
                        g0,
                        root@,
                        leavesv,
                        names_view(g@[i as int].next@).take(0),
                    ));
                }
                let mut j: usize = 0;
                while j < g[i].next.len()
                    invariant
                        g0 == graph_view(g@),
                        leavesv == names_view(leaves@),
                        gr_wf(g0),
                        i < g@.len(),
                        j <= g@[i as int].next@.len(),
                        forall|k: int|
                            0 <= k < reach@.len() ==> reaches(g0, root@, #[trigger] reach@[k]@),
                        forall|x: Seq<char>| #[trigger] reaches(g0, root@, x) ==> in_names(reach@, x),
                        names_view(next@) == kept_children(
                            g0,
                            root@,
                            leavesv,
                            names_view(g@[i as int].next@).take(j as int),
                        ),
                    decreases g@[i as int].next@.len() - j,
                {
                    let ghost cprefix = names_view(g@[i as int].next@).take(j as int);
                    proof {
                        assert(names_view(g@[i as int].next@).take(j + 1 as int).drop_last()
                            =~= cprefix);
                        assert(names_view(g@[i as int].next@).take(j + 1 as int).last()
                            == g@[i as int].next@[j as int]@);
                    }
                    if child_kept(&g[i].next[j], root, leaves, g, &reach) {
                        next.push(g[i].next[j].clone());
                        proof {
                            assert(names_view(next@) =~~= kept_children(
                                g0,
                                root@,
                                leavesv,
                                names_view(g@[i as int].next@).take(j + 1 as int),
                            ));
                        }
                    } else {
                        proof {
                            assert(names_view(next@) =~~= kept_children(
                                g0,
                                root@,
                                leavesv,
                                names_view(g@[i as int].next@).take(j + 1 as int),
                            ));
                        }
                    }
                    j += 1;
                }
                proof {
                    assert(names_view(g@[i as int].next@).take(
                        g@[i as int].next@.len() as int,
                    ) =~~= names_view(g@[i as int].next@));
                }
            }
            out.push(GraphNode { name: g[i].name.clone(), next });
            proof {
                assert(graph_view(out@) =~~= reduced_rec(g0, root@, leavesv, g0.take(i + 1 as int)));
            }
        } else {
            proof {
                assert(graph_view(out@) =~~= reduced_rec(g0, root@, leavesv, g0.take(i + 1 as int)));
            }
        }
        i += 1;
    }
    proof {
        assert(g0.take(g0.len() as int) =~= g0);
    }
    *g = out;
    proof {
        lemma_reduced_rec_wf(g0, root@, leavesv, g0);
    }
}


// ------------------------------------------------------------------
// The reducer's laws.
// ------------------------------------------------------------------

/// Concatenating two walks that share an endpoint gives a walk.
pub proof fn lemma_path_concat(g: Seq<NodeV>, p1: Seq<Seq<char>>, p2: Seq<Seq<char>>)
    requires
        is_path(g, p1),
        is_path(g, p2),
        p1.last() == p2.first(),
    ensures
        is_path(g, p1 + p2.drop_first()),
        (p1 + p2.drop_first()).first() == p1.first(),
        (p1 + p2.drop_first()).last() == p2.last(),
        (p1 + p2.drop_first()).len() == p1.len() + p2.len() - 1,
{
    let p = p1 + p2.drop_first();
    if p2.len() == 1 {
        assert(p =~= p1);
    } else {
        assert(p.len() == p1.len() + p2.len() - 1);
        assert forall|k: int| 0 <= k < p.len() - 1 implies #[trigger] edge(g, p[k], p[k + 1]) by {
            if k < p1.len() - 1 {
                assert(p[k] == p1[k] && p[k + 1] == p1[k + 1]);
                lemma_path_edge(g, p1, k);
            } else if k == p1.len() - 1 {
                assert(p[k] == p1[p1.len() - 1]);
                assert(p[k + 1] == p2[1]);
                lemma_path_edge(g, p2, 0);
            } else {
                let m = k - p1.len() + 1;
                assert(p[k] == p2[m] && p[k + 1] == p2[m + 1]);
                lemma_path_edge(g, p2, m);
            }
        }
        assert(p.last() == p2.last());
    }
}

/// Lying on a root-to-leaf walk is the same as being reachable from the root
/// while reaching some leaf.
pub proof fn lemma_on_connecting_path_equiv(
    g: Seq<NodeV>,
    root: Seq<char>,
    leaves: Seq<Seq<char>>,
    x: Seq<char>,
)
    ensures
        on_connecting_path(g, root, leaves, x) <==> exists|p: Seq<Seq<char>>|
            is_path(g, p) && p.first() == root && leaves.contains(p.last()) && #[trigger] p.contains(
                x,
            ),
{
    if on_connecting_path(g, root, leaves, x) {
        let p1 = choose|p: Seq<Seq<char>>| is_path(g, p) && p.first() == root && p.last() == x;
        let m = choose|m: Seq<char>| reaches(g, x, m) && leaves.contains(m);
        let p2 = choose|p: Seq<Seq<char>>| is_path(g, p) && p.first() == x && p.last() == m;
        lemma_path_concat(g, p1, p2);
        let p = p1 + p2.drop_first();
        assert(p[p1.len() - 1] == x);
        assert(p.contains(x));
        assert(is_path(g, p) && p.first() == root && leaves.contains(p.last()) && p.contains(x));
    }
    if exists|p: Seq<Seq<char>>|
        is_path(g, p) && p.first() == root && leaves.contains(p.last()) && #[trigger] p.contains(
            x,
        ) {
        let p = choose|p: Seq<Seq<char>>|
            is_path(g, p) && p.first() == root && leaves.contains(p.last()) && #[trigger] p.contains(
                x,
            );
        let k = choose|k: int| 0 <= k < p.len() && p[k] == x;
        lemma_path_node(g, p, k);
        assert(reaches(g, root, x));
        assert(links_to_leaf(g, leaves, x));
    }
}

/// Reducer soundness: every node the reducer retains lies on a walk from the
/// root to some leaf in the original graph.
pub proof fn lemma_reducer_sound(
    g0: Seq<NodeV>,
    root: Seq<char>,
    leaves: Seq<Seq<char>>,
    x: Seq<char>,
)
    requires
        has_node(reduced(g0, root, leaves), x),
    ensures
        exists|p: Seq<Seq<char>>|
            is_path(g0, p) && p.first() == root && leaves.contains(p.last()) && #[trigger] p.contains(
                x,
            ),
{
    assert(links_to_leaf(g0, leaves, root));
    lemma_reduced_rec_membership(g0, root, leaves, g0, x);
    assert(keep_node(g0, root, leaves, x));
    if x == root {
        lemma_reaches_refl(g0, root);
        assert(on_connecting_path(g0, root, leaves, x));
    }
    lemma_on_connecting_path_equiv(g0, root, leaves, x);
}

/// Reducer completeness: every node of the graph that lies on a walk from
/// the root to some leaf is retained.
pub proof fn lemma_reducer_complete(
    g0: Seq<NodeV>,
    root: Seq<char>,
    leaves: Seq<Seq<char>>,
    x: Seq<char>,
)
    requires
        has_node(g0, x),
        exists|p: Seq<Seq<char>>|
            is_path(g0, p) && p.first() == root && leaves.contains(p.last()) && #[trigger] p.contains(
                x,
            ),
    ensures
        has_node(reduced(g0, root, leaves), x),
{
    lemma_on_connecting_path_equiv(g0, root, leaves, x);
    assert(on_connecting_path(g0, root, leaves, x));
    let m = choose|m: Seq<char>| reaches(g0, x, m) && leaves.contains(m);
    lemma_reaches_trans(g0, root, x, m);
    assert(links_to_leaf(g0, leaves, root));
    lemma_reduced_rec_membership(g0, root, leaves, g0, x);
}

/// An element of the kept-children list is exactly an original child that is
/// itself on a root-to-leaf walk.
pub proof fn lemma_kept_children_membership(
    g0: Seq<NodeV>,
    root: Seq<char>,
    leaves: Seq<Seq<char>>,
    s: Seq<Seq<char>>,
    c: Seq<char>,
)
    ensures
        kept_children(g0, root, leaves, s).contains(c) <==> (s.contains(c) && keep_child(
            g0,
            root,
            leaves,
            c,
        )),
    decreases s.len(),
{
    let r = kept_children(g0, root, leaves, s);
    if s.len() == 0 {
        assert(!r.contains(c));
        assert(!s.contains(c));
    } else {
        let rest = kept_children(g0, root, leaves, s.drop_last());
        lemma_kept_children_membership(g0, root, leaves, s.drop_last(), c);
        if keep_child(g0, root, leaves, s.last()) {
            assert(r == rest.push(s.last()));
            if r.contains(c) {
                let i = choose|i: int| 0 <= i < r.len() && r[i] == c;
                if i < rest.len() {
                    assert(rest.contains(c));
                    assert(s.drop_last().contains(c));
                    let k = choose|k: int| 0 <= k < s.drop_last().len() && s.drop_last()[k] == c;
                    assert(s[k] == c);
                    assert(s.contains(c));
                } else {
                    assert(c == s.last());
                    assert(s[s.len() - 1] == c);
                    assert(s.contains(c));
                }
            }
            if s.contains(c) && keep_child(g0, root, leaves, c) {
                let k = choose|k: int| 0 <= k < s.len() && s[k] == c;
                if k < s.len() - 1 {
                    assert(s.drop_last()[k] == c);
                    assert(s.drop_last().contains(c));
                    assert(rest.contains(c));
                    let i = choose|i: int| 0 <= i < rest.len() && rest[i] == c;
                    assert(r[i] == c);
                    assert(r.contains(c));
                } else {
                    assert(r[rest.len() as int] == c);
                    assert(r.contains(c));
                }
            }
        } else {
            assert(r == rest);
            if r.contains(c) {
                assert(s.drop_last().contains(c));
                let k = choose|k: int| 0 <= k < s.drop_last().len() && s.drop_last()[k] == c;
                assert(s[k] == c);
                assert(s.contains(c));
            }
            if s.contains(c) && keep_child(g0, root, leaves, c) {
                let k = choose|k: int| 0 <= k < s.len() && s[k] == c;
                assert(k < s.len() - 1);
                assert(s.drop_last()[k] == c);
                assert(s.drop_last().contains(c));
            }
        }
    }
}

/// Keeping every child keeps the list unchanged.
proof fn lemma_kept_children_identity(
    g0: Seq<NodeV>,
    root: Seq<char>,
    leaves: Seq<Seq<char>>,
    s: Seq<Seq<char>>,
)
    requires
        forall|k: int| 0 <= k < s.len() ==> keep_child(g0, root, leaves, #[trigger] s[k]),
    ensures
        kept_children(g0, root, leaves, s) == s,
    decreases s.len(),
{
    if s.len() > 0 {
        assert(forall|k: int|
            0 <= k < s.drop_last().len() ==> keep_child(
                g0,
                root,
                leaves,
                #[trigger] s.drop_last()[k],
            ));
        lemma_kept_children_identity(g0, root, leaves, s.drop_last());
        assert(keep_child(g0, root, leaves, s[s.len() - 1]));
        assert(kept_children(g0, root, leaves, s) =~= s);
    }
}

/// Keeping every node with its pruning the identity keeps the graph
/// unchanged.
proof fn lemma_reduced_rec_identity(
    g1: Seq<NodeV>,
    root: Seq<char>,
    leaves: Seq<Seq<char>>,
    s: Seq<NodeV>,
)
    requires
        forall|k: int|
            0 <= k < s.len() ==> keep_node(g1, root, leaves, #[trigger] s[k].name) && prune_node(
                g1,
                root,
                leaves,
                s[k],
            ) == s[k],
    ensures
        reduced_rec(g1, root, leaves, s) == s,
    decreases s.len(),
{
    if s.len() > 0 {
        assert(forall|k: int|
            0 <= k < s.drop_last().len() ==> keep_node(
                g1,
                root,
                leaves,
                #[trigger] s.drop_last()[k].name,
            ) && prune_node(g1, root, leaves, s.drop_last()[k]) == s.drop_last()[k]);
        lemma_reduced_rec_identity(g1, root, leaves, s.drop_last());
        assert(keep_node(g1, root, leaves, s[s.len() - 1].name));
        assert(prune_node(g1, root, leaves, s[s.len() - 1]) == s[s.len() - 1]);
        assert(reduced_rec(g1, root, leaves, s) =~= s);
    }
}

/// The retained entry for a kept node is its pruning.
proof fn lemma_reduced_rec_content(
    g0: Seq<NodeV>,
    root: Seq<char>,
    leaves: Seq<Seq<char>>,
    s: Seq<NodeV>,
    i: int,
)
    requires
        0 <= i < s.len(),
        keep_node(g0, root, leaves, s[i].name),
    ensures
        exists|j: int|
            0 <= j < reduced_rec(g0, root, leaves, s).len() && #[trigger] reduced_rec(
                g0,
                root,
                leaves,
                s,
            )[j] == prune_node(g0, root, leaves, s[i]),
    decreases s.len(),
{
    let r = reduced_rec(g0, root, leaves, s);
    let rest = reduced_rec(g0, root, leaves, s.drop_last());
    if i == s.len() - 1 {
        assert(r[rest.len() as int] == prune_node(g0, root, leaves, s[i]));
    } else {
        assert(s.drop_last()[i] == s[i]);
        lemma_reduced_rec_content(g0, root, leaves, s.drop_last(), i);
        let j = choose|j: int|
            0 <= j < rest.len() && #[trigger] rest[j] == prune_node(g0, root, leaves, s[i]);
        assert(r[j] == prune_node(g0, root, leaves, s[i]));
    }
}

/// Every retained entry is the pruning of some kept original node.
proof fn lemma_reduced_rec_origin(
    g0: Seq<NodeV>,
    root: Seq<char>,
    leaves: Seq<Seq<char>>,
    s: Seq<NodeV>,
    j: int,
)
    requires
        0 <= j < reduced_rec(g0, root, leaves, s).len(),
    ensures
        exists|i: int|
            0 <= i < s.len() && keep_node(g0, root, leaves, #[trigger] s[i].name) && reduced_rec(
                g0,
                root,
                leaves,
                s,
            )[j] == prune_node(g0, root, leaves, s[i]),
    decreases s.len(),
{
    let r = reduced_rec(g0, root, leaves, s);
    let rest = reduced_rec(g0, root, leaves, s.drop_last());
    if keep_node(g0, root, leaves, s.last().name) {
        if j < rest.len() {
            lemma_reduced_rec_origin(g0, root, leaves, s.drop_last(), j);
            let i = choose|i: int|
                0 <= i < s.drop_last().len() && keep_node(
                    g0,
                    root,
                    leaves,
                    #[trigger] s.drop_last()[i].name,
                ) && rest[j] == prune_node(g0, root, leaves, s.drop_last()[i]);
            assert(s[i] == s.drop_last()[i]);
            assert(r[j] == rest[j]);
        } else {
            let i = s.len() - 1;
            assert(r[j] == prune_node(g0, root, leaves, s[i]));
        }
    } else {
        lemma_reduced_rec_origin(g0, root, leaves, s.drop_last(), j);
        let i = choose|i: int|
            0 <= i < s.drop_last().len() && keep_node(
                g0,
                root,
                leaves,
                #[trigger] s.drop_last()[i].name,
            ) && rest[j] == prune_node(g0, root, leaves, s.drop_last()[i]);
        assert(s[i] == s.drop_last()[i]);
    }
}

/// A root-to-leaf walk of the original graph survives the reduction whole:
/// its nodes are retained and its edges kept.
proof fn lemma_path_survives(
    g0: Seq<NodeV>,
    root: Seq<char>,
    leaves: Seq<Seq<char>>,
    p: Seq<Seq<char>>,
)
    requires
        gr_wf(g0),
        links_to_leaf(g0, leaves, root),
        is_path(g0, p),
        forall|k: int| 0 <= k < p.len() ==> reaches(g0, root, #[trigger] p[k]),
        links_to_leaf(g0, leaves, p.last()),
    ensures
        is_path(reduced(g0, root, leaves), p),
{
    let g1 = reduced(g0, root, leaves);
    assert(g1 == reduced_rec(g0, root, leaves, g0));
    assert forall|k: int| 0 <= k < p.len() - 1 implies #[trigger] edge(g1, p[k], p[k + 1]) by {
        lemma_path_edge(g0, p, k);
        lemma_path_node(g0, p, k);
        lemma_path_node(g0, p, k + 1);
        let m = choose|m: Seq<char>| reaches(g0, p.last(), m) && leaves.contains(m);
        lemma_reaches_trans(g0, p[k], p.last(), m);
        lemma_reaches_trans(g0, p[k + 1], p.last(), m);
        assert(links_to_leaf(g0, leaves, p[k]));
        assert(links_to_leaf(g0, leaves, p[k + 1]));
        assert(keep_node(g0, root, leaves, p[k]));
        let i0 = choose|i0: int| 0 <= i0 < g0.len() && g0[i0].name == p[k];
        lemma_node_at(g0, i0);
        assert(node_at(g0, p[k]) == g0[i0]);
        lemma_reduced_rec_content(g0, root, leaves, g0, i0);
        let j = choose|j: int|
            0 <= j < g1.len() && #[trigger] g1[j] == prune_node(g0, root, leaves, g0[i0]);
        assert(g1[j].name == p[k]);
        assert(has_node(g1, p[k]));
        lemma_reduced_rec_wf(g0, root, leaves, g0);
        lemma_node_at(g1, j);
        assert(node_at(g1, p[k]) == prune_node(g0, root, leaves, g0[i0]));
        if p[k] == root {
            assert(node_at(g1, p[k]).next == g0[i0].next);
            assert(node_at(g1, p[k]).next.contains(p[k + 1]));
        } else {
            assert(keep_child(g0, root, leaves, p[k + 1]));
            lemma_kept_children_membership(g0, root, leaves, g0[i0].next, p[k + 1]);
            assert(node_at(g1, p[k]).next.contains(p[k + 1]));
        }
        assert(edge(g1, p[k], p[k + 1]));
    }
}

/// Whenever a node is reachable from the root and reaches a leaf in the
/// original graph, it does so in the reduced graph as well.
proof fn lemma_connection_survives(
    g0: Seq<NodeV>,
    root: Seq<char>,
    leaves: Seq<Seq<char>>,
    n: Seq<char>,
)
    requires
        gr_wf(g0),
        links_to_leaf(g0, leaves, root),
        reaches(g0, root, n),
        links_to_leaf(g0, leaves, n),
    ensures
        reaches(reduced(g0, root, leaves), root, n),
        links_to_leaf(reduced(g0, root, leaves), leaves, n),
{
    let g1 = reduced(g0, root, leaves);
    let q0 = choose|p: Seq<Seq<char>>| is_path(g0, p) && p.first() == root && p.last() == n;
    assert forall|k: int| 0 <= k < q0.len() implies reaches(g0, root, #[trigger] q0[k]) by {
        lemma_path_node(g0, q0, k);
    }
    lemma_path_survives(g0, root, leaves, q0);
    assert(reaches(g1, root, n));
    let m = choose|m: Seq<char>| reaches(g0, n, m) && leaves.contains(m);
    let q1 = choose|p: Seq<Seq<char>>| is_path(g0, p) && p.first() == n && p.last() == m;
    assert forall|k: int| 0 <= k < q1.len() implies reaches(g0, root, #[trigger] q1[k]) by {
        lemma_path_node(g0, q1, k);
        lemma_reaches_trans(g0, root, n, q1[k]);
    }
    lemma_reaches_refl(g0, m);
    assert(links_to_leaf(g0, leaves, q1.last()));
    lemma_path_survives(g0, root, leaves, q1);
    assert(reaches(g1, n, m));
    assert(links_to_leaf(g1, leaves, n));
}

/// The reduction of a prefix of the graph is a prefix of the reduction.
pub proof fn lemma_reduced_rec_prefix(
    g0: Seq<NodeV>,
    root: Seq<char>,
    leaves: Seq<Seq<char>>,
    s: Seq<NodeV>,
    i: int,
)
    requires
        0 <= i <= s.len(),
    ensures
        reduced_rec(g0, root, leaves, s.take(i)).len() <= reduced_rec(g0, root, leaves, s).len(),
        reduced_rec(g0, root, leaves, s.take(i)) == reduced_rec(g0, root, leaves, s).take(
            reduced_rec(g0, root, leaves, s.take(i)).len() as int,
        ),
    decreases s.len() - i,
{
    let r = reduced_rec(g0, root, leaves, s);
    let ri = reduced_rec(g0, root, leaves, s.take(i));
    if i == s.len() {
        assert(s.take(i) =~= s);
        assert(r.take(r.len() as int) =~= r);
    } else {
        lemma_reduced_rec_prefix(g0, root, leaves, s, i + 1);
        let rn = reduced_rec(g0, root, leaves, s.take(i + 1));
        assert(s.take(i + 1).drop_last() =~= s.take(i));
        assert(s.take(i + 1).last() == s[i]);
        if keep_node(g0, root, leaves, s[i].name) {
            assert(rn == ri.push(prune_node(g0, root, leaves, s[i])));
        } else {
            assert(rn == ri);
        }
        assert(rn == r.take(rn.len() as int));
        assert(ri =~= r.take(ri.len() as int));
    }
}

/// Reducer idempotence: reducing a reduced graph changes nothing.
pub proof fn lemma_reducer_idempotent(g0: Seq<NodeV>, root: Seq<char>, leaves: Seq<Seq<char>>)
    requires
        gr_wf(g0),
    ensures
        reduced(reduced(g0, root, leaves), root, leaves) == reduced(g0, root, leaves),
    decreases 0int,
{
    let g1 = reduced(g0, root, leaves);
    if !links_to_leaf(g0, leaves, root) {
        assert(g1 =~= Seq::<NodeV>::empty());
        if links_to_leaf(g1, leaves, root) {
            assert(reduced(g1, root, leaves) =~= reduced_rec(g1, root, leaves, g1));
            assert(reduced(g1, root, leaves) =~= g1);
        } else {
            assert(reduced(g1, root, leaves) =~= g1);
        }
    } else {
        lemma_reaches_refl(g0, root);
        lemma_connection_survives(g0, root, leaves, root);
        assert(links_to_leaf(g1, leaves, root));
        assert forall|k: int|
            0 <= k < g1.len() implies keep_node(g1, root, leaves, #[trigger] g1[k].name)
            && prune_node(g1, root, leaves, g1[k]) == g1[k] by {
            lemma_reduced_rec_origin(g0, root, leaves, g0, k);
            let i = choose|i: int|
                0 <= i < g0.len() && keep_node(g0, root, leaves, #[trigger] g0[i].name) && g1[k]
                    == prune_node(g0, root, leaves, g0[i]);
            let n = g1[k].name;
            assert(n == g0[i].name);
            if n == root {
                assert(keep_node(g1, root, leaves, n));
            } else {
                assert(reaches(g0, root, n) && links_to_leaf(g0, leaves, n));
                lemma_connection_survives(g0, root, leaves, n);
                assert(keep_node(g1, root, leaves, n));
            }
            if n == root {
                assert(prune_node(g1, root, leaves, g1[k]) == g1[k]);
            } else {
                assert(g1[k].next == kept_children(g0, root, leaves, g0[i].next));
                assert forall|c: int| 0 <= c < g1[k].next.len() implies keep_child(
                    g1,
                    root,
                    leaves,
                    #[trigger] g1[k].next[c],
                ) by {
                    assert(g1[k].next.contains(g1[k].next[c]));
                    lemma_kept_children_membership(g0, root, leaves, g0[i].next, g1[k].next[c]);
                    assert(keep_child(g0, root, leaves, g1[k].next[c]));
                    lemma_connection_survives(g0, root, leaves, g1[k].next[c]);
                }
                lemma_kept_children_identity(g1, root, leaves, g1[k].next);
                assert(prune_node(g1, root, leaves, g1[k]) =~~= g1[k]);
            }
        }
        lemma_reduced_rec_identity(g1, root, leaves, g1);
        assert(reduced(g1, root, leaves) == reduced_rec(g1, root, leaves, g1));
    }
}

} // verus!
