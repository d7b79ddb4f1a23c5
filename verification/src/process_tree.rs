//! Parent/child index over a process snapshot.
//!
//! The tree is an immutable list of `(parent pid, child pid)` edges taken
//! once per scan.  `ancestors` walks edges backward toward PID 1 and returns
//! a partial chain when a link is missing (a process may vanish mid-scan);
//! `descendants` is the forward reachability closure.

use vstd::prelude::*;

use crate::sets::VecSet;

verus! {

/// Some edge turns `parent` into `child`.
pub open spec fn has_edge(edges: Seq<(i32, i32)>, parent: i32, child: i32) -> bool {
    exists|k: int| 0 <= k < edges.len() && edges[k].0 == parent && edges[k].1 == child
}

/// Consecutive entries of `c` are all connected by edges.
pub open spec fn is_chain(edges: Seq<(i32, i32)>, c: Seq<i32>) -> bool {
    forall|i: int| 0 <= i < c.len() - 1 ==> has_edge(edges, #[trigger] c[i], c[i + 1])
}

/// `dst` is reachable from `src` through at least one edge.
pub open spec fn reaches(edges: Seq<(i32, i32)>, src: i32, dst: i32) -> bool {
    exists|c: Seq<i32>|
        c.len() >= 2 && c.first() == src && c.last() == dst && is_chain(edges, c)
}

/// The parent recorded by the first edge at or after position `k` whose
/// child is `pid`.
pub open spec fn first_parent_from(edges: Seq<(i32, i32)>, pid: i32, k: int) -> Option<i32>
    decreases edges.len() - k,
{
    if k < 0 || k >= edges.len() {
        None
    } else if edges[k].1 == pid {
        Some(edges[k].0)
    } else {
        first_parent_from(edges, pid, k + 1)
    }
}

/// The chain of parents above `current`, walking one first-matching edge at
/// a time, stopping at PID 1, at a missing link, or when `fuel` runs out.
pub open spec fn parent_chain(edges: Seq<(i32, i32)>, current: i32, fuel: nat) -> Seq<i32>
    decreases fuel,
{
    if current == 1 || fuel == 0 {
        Seq::<i32>::empty()
    } else {
        match first_parent_from(edges, current, 0) {
            None => Seq::<i32>::empty(),
            Some(p) => seq![p] + parent_chain(edges, p, (fuel - 1) as nat),
        }
    }
}

/// `s` (with `root` adjoined) is closed under edges, except that members of
/// `frontier` still have unexplored children.
pub open spec fn closed_except(
    edges: Seq<(i32, i32)>,
    s: Set<i32>,
    root: i32,
    frontier: Set<i32>,
) -> bool {
    forall|a: i32, b: i32|
        (a == root || s.contains(a)) && !frontier.contains(a) && #[trigger] has_edge(edges, a, b)
            ==> s.contains(b)
}

/// Extending a (possibly empty) walk by one edge yields a walk.
proof fn lemma_reaches_step(edges: Seq<(i32, i32)>, src: i32, mid: i32, dst: i32)
    requires
        mid == src || reaches(edges, src, mid),
        has_edge(edges, mid, dst),
    ensures
        reaches(edges, src, dst),
{
    if mid == src {
        let c = seq![src, dst];
        assert(is_chain(edges, c));
        assert(c.len() >= 2 && c.first() == src && c.last() == dst);
    } else {
        let c = choose|c: Seq<i32>|
            c.len() >= 2 && c.first() == src && c.last() == mid && is_chain(edges, c);
        let c2 = c.push(dst);
        assert(is_chain(edges, c2)) by {
            assert(forall|i: int|
                0 <= i < c2.len() - 2 ==> #[trigger] c2[i] == c[i] && c2[i + 1] == c[i + 1]);
            assert(c2[c2.len() - 2] == mid && c2[c2.len() - 1] == dst);
        }
        assert(c2.len() >= 2 && c2.first() == src && c2.last() == dst);
    }
}

/// Every pid reachable from `root` lies in a set that is closed under edges.
proof fn lemma_closed_contains_reachable(
    edges: Seq<(i32, i32)>,
    s: Set<i32>,
    root: i32,
    c: Seq<i32>,
)
    requires
        closed_except(edges, s, root, Set::<i32>::empty()),
        c.len() >= 2,
        c.first() == root,
        is_chain(edges, c),
    ensures
        s.contains(c.last()),
    decreases c.len(),
{
    if c.len() == 2 {
        assert(has_edge(edges, c[0], c[1]));
    } else {
        let c1 = c.drop_last();
        assert(is_chain(edges, c1)) by {
            assert(forall|i: int|
                0 <= i < c1.len() - 1 ==> #[trigger] c1[i] == c[i] && c1[i + 1] == c[i + 1]);
        }
        lemma_closed_contains_reachable(edges, s, root, c1);
        assert(has_edge(edges, c[c.len() - 2], c[c.len() - 1]));
        assert(c1.last() == c[c.len() - 2]);
    }
}

/// The parent→child edge list of one snapshot.
pub struct ProcessTree {
    edges: Vec<(i32, i32)>,
}

impl View for ProcessTree {
    type V = Seq<(i32, i32)>;

    closed spec fn view(&self) -> Seq<(i32, i32)> {
        self.edges@
    }
}

impl ProcessTree {
    /// Builds the tree from the `(parent pid, pid)` pairs read out of the
    /// snapshot; processes whose status could not be read are left out by
    /// the caller.
    pub fn new(edges: Vec<(i32, i32)>) -> (r: Self)
        ensures
            r@ == edges@,
    {
        ProcessTree { edges }
    }

    /// The chain of parents above `pid`, stopping at PID 1 or at the first
    /// missing link (the chain is then partial, not an error).  A walk
    /// longer than the edge list would have to revisit an edge, which a
    /// well-formed snapshot cannot produce, so the walk stops there.
    pub fn ancestors(&self, pid: i32, include_first: bool) -> (r: Vec<i32>)
        ensures
            r@ == (if include_first {
                seq![pid]
            } else {
                Seq::<i32>::empty()
            }) + parent_chain(self@, pid, self@.len() as nat),
    {
        let ghost prefix: Seq<i32> = if include_first { seq![pid] } else { Seq::<i32>::empty() };
        let mut r: Vec<i32> = Vec::new();
        if include_first {
            r.push(pid);
        }
        let mut current: i32 = pid;
        let mut fuel: usize = self.edges.len();
        while current != 1 && fuel > 0
            invariant
                fuel <= self@.len(),
                prefix == (if include_first {
                    seq![pid]
                } else {
                    Seq::<i32>::empty()
                }),
                prefix + parent_chain(self@, pid, self@.len() as nat) == r@ + parent_chain(
                    self@,
                    current,
                    fuel as nat,
                ),
            decreases fuel,
        {
            let n = self.edges.len();
            let mut hit: Option<i32> = None;
            let mut k: usize = 0;
            while k < n && hit.is_none()
                invariant
                    n == self@.len(),
                    k <= n,
                    match hit {
                        None => first_parent_from(self@, current, 0) == first_parent_from(
                            self@,
                            current,
                            k as int,
                        ),
                        Some(p) => first_parent_from(self@, current, 0) == Some(p),
                    },
                decreases n - k + (if hit is None { 1int } else { 0int }),
            {
                if self.edges[k].1 == current {
                    hit = Some(self.edges[k].0);
                } else {
                    k += 1;
                }
            }
            let parent: i32;
            match hit {
                None => {
                    proof {
                        assert(first_parent_from(self@, current, n as int) is None);
                        assert(parent_chain(self@, current, fuel as nat) =~= Seq::<i32>::empty());
                        assert(r@ + Seq::<i32>::empty() =~= r@);
                    }
                    return r;
                },
                Some(p) => {
                    parent = p;
                },
            }
            proof {
                assert(first_parent_from(self@, current, 0) == Some(parent));
                assert(parent_chain(self@, current, fuel as nat) == seq![parent] + parent_chain(
                    self@,
                    parent,
                    (fuel - 1) as nat,
                ));
                assert(r@ + (seq![parent] + parent_chain(self@, parent, (fuel - 1) as nat))
                    =~= r@.push(parent) + parent_chain(self@, parent, (fuel - 1) as nat));
            }
            r.push(parent);
            current = parent;
            fuel -= 1;
        }
        proof {
            assert(parent_chain(self@, current, fuel as nat) =~= Seq::<i32>::empty());
            assert(r@ + Seq::<i32>::empty() =~= r@);
        }
        r
    }

    /// All pids reachable from `pid` through parent→child edges, and `pid`
    /// itself when `include_first` is set.
    pub fn descendants(&self, pid: i32, include_first: bool) -> (r: VecSet<i32>)
        ensures
            forall|x: i32|
                r@.contains(x) <==> (reaches(self@, pid, x) || (include_first && x == pid)),
    {
        let ghost edges = self@;
        let mut visited: VecSet<i32> = VecSet::new();
        let mut pool: Vec<i32> = Vec::new();
        pool.push(pid);
        let ghost nedges = self@.len() as nat;
        proof {
            broadcast use vstd::seq_lib::seq_to_set_is_finite;

            assert(pool@[0] == pid);
            assert(pool@.contains(pid));
            assert(pool@.to_set().contains(pid));
        }
        while pool.len() != 0
            invariant
                edges == self@,
                visited@.finite(),
                visited@.len() <= nedges,
                nedges == self@.len(),
                // every visited pid was reached through edges
                forall|x: i32| visited@.contains(x) ==> reaches(edges, pid, x),
                // pool members are the root or already visited
                forall|i: int|
                    0 <= i < pool@.len() ==> pool@[i] == pid || visited@.contains(pool@[i]),
                // only pool members may still have unexplored children
                closed_except(edges, visited@, pid, pool@.to_set()),
            decreases nedges + 1 - visited@.len(), pool@.len(),
        {
            let ghost old_visited = visited@;
            let ghost old_pool = pool@;
            let current = pool.pop().unwrap();
            proof {
                assert forall|x: i32| old_pool.to_set().contains(x)
                    implies pool@.to_set().insert(current).contains(x) by {
                    let i = choose|i: int| 0 <= i < old_pool.len() && old_pool[i] == x;
                    if i < old_pool.len() - 1 {
                        assert(pool@[i] == x);
                        assert(pool@.contains(x));
                    }
                }
                assert(closed_except(edges, visited@, pid, pool@.to_set().insert(current))) by {
                    assert forall|a: i32, b: i32|
                        (a == pid || visited@.contains(a)) && !pool@.to_set().insert(
                            current,
                        ).contains(a) && #[trigger] has_edge(edges, a, b)
                        implies visited@.contains(b) by {
                        assert(!old_pool.to_set().contains(a));
                    }
                }
            }
            let n = self.edges.len();
            for k in 0..n
                invariant
                    edges == self@,
                    n == self@.len(),
                    visited@.finite(),
                    visited@.len() <= nedges,
                    nedges == self@.len(),
                    current == old_pool.last(),
                    old_pool.len() >= 1,
                    current == pid || visited@.contains(current),
                    forall|x: i32| visited@.contains(x) ==> reaches(edges, pid, x),
                    forall|i: int|
                        0 <= i < pool@.len() ==> pool@[i] == pid || visited@.contains(pool@[i]),
                    closed_except(edges, visited@, pid, pool@.to_set().insert(current)),
                    // children found so far are visited
                    forall|j: int|
                        0 <= j < k && edges[j].0 == current ==> visited@.contains(edges[j].1),
                    // growth is coupled: any new pool entry is newly visited
                    visited@.len() == old_visited.len() ==> pool@ == old_pool.drop_last(),
                    old_visited.len() <= visited@.len(),
            {
                let (p, c) = self.edges[k];
                if p == current {
                    if !visited.contains(&c) {
                        let ghost prev_visited = visited@;
                        let ghost prev_pool = pool@;
                        proof {
                            assert(has_edge(edges, current, c)) by {
                                assert(edges[k as int].0 == current && edges[k as int].1 == c);
                            }
                            lemma_reaches_step(edges, pid, current, c);
                            // c is a child in the edge list, which bounds |visited|
                            let children = edges.map_values(|e: (i32, i32)| e.1);
                            assert forall|x: i32| visited@.insert(c).contains(x)
                                implies children.to_set().contains(x) by {
                                if x == c {
                                    assert(children[k as int] == c);
                                    assert(children.contains(x));
                                } else {
                                    assert(reaches(edges, pid, x));
                                    let ch = choose|cc: Seq<i32>|
                                        cc.len() >= 2 && cc.first() == pid && cc.last() == x
                                            && is_chain(edges, cc);
                                    assert(has_edge(edges, ch[ch.len() - 2], ch[ch.len() - 1]));
                                    let kk = choose|kk: int|
                                        0 <= kk < edges.len() && edges[kk].0 == ch[ch.len() - 2]
                                            && edges[kk].1 == x;
                                    assert(children[kk] == x);
                                    assert(children.contains(x));
                                }
                            }
                            vstd::set_lib::lemma_len_subset(
                                visited@.insert(c),
                                children.to_set(),
                            );
                            children.lemma_cardinality_of_set();
                        }
                        visited.insert(c);
                        pool.push(c);
                        proof {
                            prev_pool.lemma_push_to_set_commute(c);
                            assert(pool@.to_set() =~= prev_pool.to_set().insert(c));
                            assert(closed_except(
                                edges,
                                visited@,
                                pid,
                                pool@.to_set().insert(current),
                            )) by {
                                assert forall|a: i32, b: i32|
                                    (a == pid || visited@.contains(a)) && !pool@.to_set().insert(
                                        current,
                                    ).contains(a) && #[trigger] has_edge(edges, a, b)
                                    implies visited@.contains(b) by {
                                    assert(a != c);
                                    assert(!prev_pool.to_set().insert(current).contains(a));
                                    assert(prev_visited.contains(b));
                                }
                            }
                        }
                    }
                }
            }
            proof {
                assert(closed_except(edges, visited@, pid, pool@.to_set())) by {
                    assert forall|a: i32, b: i32|
                        (a == pid || visited@.contains(a)) && !pool@.to_set().contains(a)
                            && #[trigger] has_edge(edges, a, b) implies visited@.contains(b) by {
                        if a == current {
                            let kk = choose|kk: int|
                                0 <= kk < edges.len() && edges[kk].0 == a && edges[kk].1 == b;
                        } else {
                            assert(!pool@.to_set().insert(current).contains(a));
                        }
                    }
                }
            }
        }
        proof {
            assert forall|x: i32| reaches(edges, pid, x) implies visited@.contains(x) by {
                assert(closed_except(edges, visited@, pid, Set::<i32>::empty())) by {
                    assert(pool@.to_set() =~= Set::<i32>::empty());
                }
                let c = choose|c: Seq<i32>|
                    c.len() >= 2 && c.first() == pid && c.last() == x && is_chain(edges, c);
                lemma_closed_contains_reachable(edges, visited@, pid, c);
            }
        }
        let mut r = visited;
        if include_first {
            r.insert(pid);
        }
        r
    }
}

} // verus!
