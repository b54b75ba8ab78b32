//! The graph traversal engine: a reusable walker over an arbitrary node set
//! with an edge-discovery callback and duplicate suppression.
//!
//! Every reachable node is visited exactly once; a node already claimed is
//! never re-expanded even when it is discovered through several parents or
//! through a cycle. If expansion fails for any node the whole traversal fails
//! fast and partially collected results are discarded.

use vstd::prelude::*;

verus! {

use vstd::set_lib::lemma_int_range;
use vstd::set_lib::set_int_range;
use crate::Error;

broadcast use vstd::seq_lib::lemma_seq_contains_after_push;

/// An edge-discovery callback together with the specification of the edges it
/// discovers. Node identities are drawn from a finite key space, which bounds
/// the traversal.
pub trait Expander<Node> {
    /// Validity condition the expander needs (typically a well-formed graph).
    spec fn inv(&self) -> bool;

    /// The nodes that expanding `n` discovers.
    spec fn succ(&self, n: Node) -> Seq<Node>;

    /// Whether expansion succeeds on `n`.
    spec fn ok(&self, n: Node) -> bool;

    /// The size of the node key space.
    spec fn bound(&self) -> int;

    /// An injective key for each node that expansion can discover.
    spec fn key(&self, n: Node) -> int;

    /// Keys identify nodes: two nodes with one in-range key are the same node.
    proof fn key_injective(&self, a: Node, b: Node)
        requires
            self.inv(),
            self.key(a) == self.key(b),
            0 <= self.key(a) < self.bound(),
        ensures
            a == b,
    ;

    /// What a failed expansion of `n` reports: the error carries enough
    /// context about the violation for diagnosis.
    spec fn fails_with(&self, n: Node, err: Error) -> bool;

    /// Discover the successors of `n`, or fail (aborting the traversal).
    fn expand(&self, n: &Node) -> (r: Result<Vec<Node>, Error>)
        requires
            self.inv(),
        ensures
            r is Ok <==> self.ok(*n),
            r matches Ok(v) ==> v@ == self.succ(*n),
            r matches Ok(v) ==> forall|j: int|
                0 <= j < v@.len() ==> 0 <= self.key(#[trigger] v@[j]) < self.bound(),
            r matches Err(err) ==> self.fails_with(*n, err),
    ;

    /// Node equality by identity, used for duplicate suppression.
    fn eq_nodes(&self, a: &Node, b: &Node) -> (r: bool)
        ensures
            r <==> a == b,
    ;
}

/// A walk: consecutive nodes are linked by discovered edges.
pub open spec fn is_walk<Node, E: Expander<Node>>(e: &E, p: Seq<Node>) -> bool {
    forall|i: int| 0 <= i < p.len() - 1 ==> (#[trigger] e.succ(p[i])).contains(p[i + 1])
}

/// Whether `m` is reachable from one of `roots` through discovered edges.
pub open spec fn reaches<Node, E: Expander<Node>>(e: &E, roots: Seq<Node>, m: Node) -> bool {
    exists|p: Seq<Node>| is_walk(e, p) && p.len() > 0 && roots.contains(p[0]) && p.last() == m
}

/// Every root is reachable.
pub proof fn lemma_reaches_root<Node, E: Expander<Node>>(e: &E, roots: Seq<Node>, r: Node)
    requires
        roots.contains(r),
    ensures
        reaches(e, roots, r),
{
    let p = seq![r];
    assert(p.last() == r);
    assert(is_walk(e, p));
    assert(roots.contains(p[0]));
}

/// Reachability is closed under discovered edges.
pub proof fn lemma_reaches_step<Node, E: Expander<Node>>(
    e: &E,
    roots: Seq<Node>,
    n: Node,
    s: Node,
)
    requires
        reaches(e, roots, n),
        e.succ(n).contains(s),
    ensures
        reaches(e, roots, s),
{
    let p = choose|p: Seq<Node>|
        is_walk(e, p) && p.len() > 0 && roots.contains(p[0]) && p.last() == n;
    let q = p.push(s);
    assert(is_walk(e, q)) by {
        assert forall|i: int| 0 <= i < q.len() - 1 implies (#[trigger] e.succ(q[i])).contains(
            q[i + 1],
        ) by {
            if i < p.len() - 1 {
                assert(e.succ(p[i]).contains(p[i + 1]));
                assert(q[i] == p[i] && q[i + 1] == p[i + 1]);
            } else {
                assert(q[i] == p.last() && q[i + 1] == s);
            }
        }
    }
    assert(q[0] == p[0]);
    assert(q.last() == s);
}

/// Any walk starting in `roots` stays inside a set that contains the roots and
/// is closed under discovered edges.
proof fn lemma_walk_stays<Node, E: Expander<Node>>(
    e: &E,
    roots: Seq<Node>,
    v: Seq<Node>,
    p: Seq<Node>,
)
    requires
        forall|k: int| 0 <= k < roots.len() ==> v.contains(#[trigger] roots[k]),
        forall|n: Node, s: Node|
            #![trigger v.contains(n), e.succ(n).contains(s)]
            v.contains(n) && e.succ(n).contains(s) ==> v.contains(s),
        is_walk(e, p),
        p.len() > 0,
        roots.contains(p[0]),
    ensures
        v.contains(p.last()),
    decreases p.len(),
{
    if p.len() == 1 {
        let k = choose|k: int| 0 <= k < roots.len() && roots[k] == p[0];
        assert(v.contains(roots[k]));
    } else {
        let q = p.drop_last();
        assert(is_walk(e, q)) by {
            assert forall|i: int| 0 <= i < q.len() - 1 implies (#[trigger] e.succ(q[i])).contains(
                q[i + 1],
            ) by {
                assert(e.succ(p[i]).contains(p[i + 1]));
            }
        }
        assert(q[0] == p[0]);
        lemma_walk_stays(e, roots, v, q);
        assert(q.last() == p[p.len() - 2]);
        assert(e.succ(p[p.len() - 2]).contains(p[p.len() - 1]));
        assert(v.contains(p[p.len() - 2]));
    }
}

/// A set that contains the roots and is closed under discovered edges contains
/// everything reachable.
proof fn lemma_closed_contains_reaches<Node, E: Expander<Node>>(e: &E, roots: Seq<Node>, v: Seq<
    Node,
>)
    requires
        forall|k: int| 0 <= k < roots.len() ==> v.contains(#[trigger] roots[k]),
        forall|n: Node, s: Node|
            #![trigger v.contains(n), e.succ(n).contains(s)]
            v.contains(n) && e.succ(n).contains(s) ==> v.contains(s),
    ensures
        forall|m: Node| reaches(e, roots, m) ==> v.contains(m),
{
    assert forall|m: Node| reaches(e, roots, m) implies v.contains(m) by {
        let p = choose|p: Seq<Node>|
            is_walk(e, p) && p.len() > 0 && roots.contains(p[0]) && p.last() == m;
        lemma_walk_stays(e, roots, v, p);
    }
}

/// Pigeonhole: a duplicate-free sequence whose keys lie in `[0, bound)` has at
/// most `bound` elements.
proof fn lemma_claimed_bounded<Node, E: Expander<Node>>(e: &E, s: Seq<Node>)
    requires
        e.inv(),
        0 <= e.bound(),
        s.no_duplicates(),
        forall|i: int| 0 <= i < s.len() ==> 0 <= e.key(#[trigger] s[i]) < e.bound(),
    ensures
        s.len() <= e.bound(),
{
    let ks = Seq::new(s.len(), |i: int| e.key(s[i]));
    assert(ks.no_duplicates()) by {
        assert forall|i: int, j: int|
            0 <= i < ks.len() && 0 <= j < ks.len() && i != j implies ks[i] != ks[j] by {
            if ks[i] == ks[j] {
                e.key_injective(s[i], s[j]);
            }
        }
    }
    ks.unique_seq_to_set();
    lemma_int_range(0, e.bound());
    assert(ks.to_set().subset_of(set_int_range(0, e.bound()))) by {
        assert forall|k: int| ks.to_set().contains(k) implies set_int_range(0, e.bound()).contains(
            k,
        ) by {
            let i = choose|i: int| 0 <= i < ks.len() && ks[i] == k;
            assert(0 <= e.key(s[i]) < e.bound());
        }
    }
    vstd::set_lib::lemma_len_subset(ks.to_set(), set_int_range(0, e.bound()));
}

/// Pushing a fresh element preserves freedom from duplicates.
proof fn lemma_push_no_dup<A>(s: Seq<A>, x: A)
    requires
        s.no_duplicates(),
        !s.contains(x),
    ensures
        s.push(x).no_duplicates(),
{
    let t = s.push(x);
    assert forall|i: int, j: int|
        0 <= i < t.len() && 0 <= j < t.len() && i != j implies t[i] != t[j] by {
        if i < s.len() && j < s.len() {
            assert(t[i] == s[i] && t[j] == s[j]);
        } else if j == s.len() && i < s.len() {
            assert(t[i] == s[i] && t[j] == x);
            assert(s.contains(s[i]));
        } else if i == s.len() && j < s.len() {
            assert(t[j] == s[j] && t[i] == x);
            assert(s.contains(s[j]));
        }
    }
}

/// Linear scan for a node, by the expander's identity equality.
fn contains_node<Node: Copy, E: Expander<Node>>(e: &E, v: &Vec<Node>, x: &Node) -> (r: bool)
    ensures
        r == v@.contains(*x),
{
    let mut i: usize = 0;
    while i < v.len()
        invariant
            i <= v@.len(),
            forall|k: int| 0 <= k < i ==> v@[k] != *x,
        decreases v@.len() - i,
    {
        if e.eq_nodes(&v[i], x) {
            assert(v@.contains(*x)) by {
                assert(v@[i as int] == *x);
            }
            return true;
        }
        i += 1;
    }
    false
}

/// Collects, from a set of start nodes, every node reachable through the
/// expander's edge discovery, visiting each unique node exactly once; a node
/// already claimed is never re-expanded, however many parents or cycles
/// discover it. If expansion fails anywhere the traversal fails as a whole and
/// no partial result is returned.
pub fn traverse<Node: Copy, E: Expander<Node>>(e: &E, roots: &Vec<Node>) -> (r: Result<
    Vec<Node>,
    Error,
>)
    requires
        e.inv(),
        0 <= e.bound(),
        forall|k: int| 0 <= k < roots@.len() ==> 0 <= e.key(#[trigger] roots@[k]) < e.bound(),
    ensures
        match r {
            Ok(out) => {
                &&& out@.no_duplicates()
                &&& forall|m: Node| #[trigger] out@.contains(m) <==> reaches(e, roots@, m)
                &&& forall|m: Node| #[trigger] reaches(e, roots@, m) ==> e.ok(m)
            },
            Err(err) => exists|m: Node|
                #[trigger] reaches(e, roots@, m) && !e.ok(m) && e.fails_with(m, err),
        },
{
    let mut claimed: Vec<Node> = Vec::new();
    let mut queue: Vec<Node> = Vec::new();
    let mut ri: usize = 0;
    while ri < roots.len()
        invariant
            ri <= roots@.len(),
            claimed@.no_duplicates(),
            queue@.no_duplicates(),
            forall|k: int|
                0 <= k < roots@.len() ==> 0 <= e.key(#[trigger] roots@[k]) < e.bound(),
            forall|i: int|
                0 <= i < claimed@.len() ==> 0 <= e.key(#[trigger] claimed@[i]) < e.bound(),
            forall|n: Node| #[trigger] queue@.contains(n) ==> claimed@.contains(n),
            forall|n: Node| #[trigger] claimed@.contains(n) ==> queue@.contains(n),
            forall|n: Node| #[trigger] claimed@.contains(n) ==> reaches(e, roots@, n),
            forall|k: int| 0 <= k < ri ==> claimed@.contains(#[trigger] roots@[k]),
        decreases roots@.len() - ri,
    {
        let root = roots[ri];
        if !contains_node(e, &claimed, &root) {
            proof {
                lemma_reaches_root(e, roots@, root);
                lemma_push_no_dup(claimed@, root);
                lemma_push_no_dup(queue@, root);
            }
            claimed.push(root);
            queue.push(root);
        }
        ri += 1;
    }
    while queue.len() > 0
        invariant
            e.inv(),
            0 <= e.bound(),
            claimed@.no_duplicates(),
            queue@.no_duplicates(),
            forall|i: int|
                0 <= i < claimed@.len() ==> 0 <= e.key(#[trigger] claimed@[i]) < e.bound(),
            forall|n: Node| #[trigger] queue@.contains(n) ==> claimed@.contains(n),
            forall|n: Node| #[trigger] claimed@.contains(n) ==> reaches(e, roots@, n),
            forall|k: int| 0 <= k < roots@.len() ==> claimed@.contains(#[trigger] roots@[k]),
            forall|n: Node|
                #![trigger claimed@.contains(n)]
                claimed@.contains(n) && !queue@.contains(n) ==> e.ok(n) && (forall|s: Node|
                    (#[trigger] e.succ(n)).contains(s) ==> claimed@.contains(s)),
        decreases 2 * (e.bound() - claimed@.len()) + queue@.len(),
    {
        proof {
            lemma_claimed_bounded(e, claimed@);
        }
        let ghost old_queue = queue@;
        let node = queue.pop().unwrap();
        proof {
            assert(old_queue[old_queue.len() - 1] == node);
            assert(old_queue.contains(node)) by {
                assert(old_queue[old_queue.len() - 1] == node);
            }
            assert(claimed@.contains(node));
            assert(!queue@.contains(node)) by {
                if queue@.contains(node) {
                    let k = choose|k: int| 0 <= k < queue@.len() && queue@[k] == node;
                    assert(old_queue[k] == old_queue[old_queue.len() - 1]);
                }
            }
            assert(queue@.no_duplicates()) by {
                assert forall|i: int, j: int|
                    0 <= i < queue@.len() && 0 <= j < queue@.len() && i != j implies queue@[i]
                    != queue@[j] by {
                    assert(queue@[i] == old_queue[i] && queue@[j] == old_queue[j]);
                }
            }
            assert forall|n: Node| #[trigger] queue@.contains(n) implies claimed@.contains(n) by {
                let k = choose|k: int| 0 <= k < queue@.len() && queue@[k] == n;
                assert(old_queue[k] == n);
                assert(old_queue.contains(n));
            }
            assert forall|n: Node|
                old_queue.contains(n) && n != node implies queue@.contains(n) by {
                let k = choose|k: int| 0 <= k < old_queue.len() && old_queue[k] == n;
                assert(k < old_queue.len() - 1);
                assert(queue@[k] == n);
            }
        }
        match e.expand(&node) {
            Err(err) => {
                proof {
                    assert(reaches(e, roots@, node) && !e.ok(node) && e.fails_with(node, err));
                }
                return Err(err);
            },
            Ok(succs) => {
                let ghost claimed_at_pop = claimed@.len() as int;
                let ghost queue_at_pop = queue@.len() as int;
                let mut si: usize = 0;
                while si < succs.len()
                    invariant
                        e.inv(),
                        0 <= e.bound(),
                        succs@ == e.succ(node),
                        e.ok(node),
                        forall|j: int|
                            0 <= j < succs@.len() ==> 0 <= e.key(#[trigger] succs@[j]) < e.bound(),
                        claimed@.contains(node),
                        !queue@.contains(node),
                        si <= succs@.len(),
                        claimed@.no_duplicates(),
                        queue@.no_duplicates(),
                        claimed@.len() - claimed_at_pop == queue@.len() - queue_at_pop,
                        claimed_at_pop <= claimed@.len(),
                        forall|i: int|
                            0 <= i < claimed@.len() ==> 0 <= e.key(#[trigger] claimed@[i])
                                < e.bound(),
                        forall|n: Node| #[trigger] queue@.contains(n) ==> claimed@.contains(n),
                        forall|n: Node| #[trigger] claimed@.contains(n) ==> reaches(e, roots@, n),
                        forall|k: int|
                            0 <= k < roots@.len() ==> claimed@.contains(#[trigger] roots@[k]),
                        forall|n: Node|
                            #![trigger claimed@.contains(n)]
                            claimed@.contains(n) && !queue@.contains(n) && n != node ==> e.ok(n)
                                && (forall|s: Node|
                                (#[trigger] e.succ(n)).contains(s) ==> claimed@.contains(s)),
                        forall|k: int| 0 <= k < si ==> claimed@.contains(#[trigger] succs@[k]),
                    decreases succs@.len() - si,
                {
                    let s = succs[si];
                    if !contains_node(e, &claimed, &s) {
                        proof {
                            lemma_reaches_step(e, roots@, node, s);
                            lemma_push_no_dup(claimed@, s);
                            lemma_push_no_dup(queue@, s);
                        }
                        claimed.push(s);
                        queue.push(s);
                    }
                    si += 1;
                }
                proof {
                    lemma_claimed_bounded(e, claimed@);
                    assert forall|n: Node|
                        claimed@.contains(n) && !queue@.contains(n) implies e.ok(n) && (forall|
                        s: Node,
                    |
                        (#[trigger] e.succ(n)).contains(s) ==> claimed@.contains(s)) by {
                        if n == node {
                            assert forall|s: Node| (#[trigger] e.succ(node)).contains(
                                s,
                            ) implies claimed@.contains(s) by {
                                let k = choose|k: int| 0 <= k < succs@.len() && succs@[k] == s;
                                assert(claimed@.contains(succs@[k]));
                            }
                        }
                    }
                }
            },
        }
    }
    proof {
        lemma_closed_contains_reaches(e, roots@, claimed@);
        assert forall|m: Node| #[trigger] reaches(e, roots@, m) implies e.ok(m) by {
            assert(claimed@.contains(m));
            assert(!queue@.contains(m));
        }
    }
    Ok(claimed)
}

} // verus!
