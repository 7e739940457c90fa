//! The import graph and reachability over it.
//!
//! The analysed layer refuses to follow imports into a cycle; cycle
//! detection is reachability in the graph whose nodes are module names
//! and whose edges are the modules' import lists.

use vstd::prelude::*;

use crate::bytes::{bytes_eq, copy_bytes, copy_bytes_list, deep};

verus! {

/// A ghost import graph: nodes with their successor lists.
pub type GraphV = Seq<(Seq<u8>, Seq<Seq<u8>>)>;

/// The view of a concrete graph.
pub open spec fn graph_v(g: Seq<(Vec<u8>, Vec<Vec<u8>>)>) -> GraphV {
    Seq::new(g.len(), |i: int| (g[i].0@, deep(g[i].1@)))
}

/// The successors of `m`: the list of its first entry, or empty.
pub open spec fn g_succs(g: GraphV, m: Seq<u8>) -> Seq<Seq<u8>>
    decreases g.len(),
{
    if g.len() == 0 {
        Seq::empty()
    } else if g[0].0 == m {
        g[0].1
    } else {
        g_succs(g.skip(1), m)
    }
}

/// Every step of `p` follows an edge.
pub open spec fn is_chain(g: GraphV, p: Seq<Seq<u8>>) -> bool {
    forall|i: int| 0 <= i < p.len() - 1 ==> g_succs(g, #[trigger] p[i]).contains(p[i + 1])
}

/// A chain of at least one edge from `a` to `b`.
pub open spec fn chain_ok(g: GraphV, p: Seq<Seq<u8>>, a: Seq<u8>, b: Seq<u8>) -> bool {
    p.len() >= 2 && p[0] == a && p[p.len() - 1] == b && is_chain(g, p)
}

/// `b` is reachable from `a` in at least one step.
pub open spec fn reaches(g: GraphV, a: Seq<u8>, b: Seq<u8>) -> bool {
    exists|p: Seq<Seq<u8>>| chain_ok(g, p, a, b)
}

/// An edge is a chain.
pub proof fn lemma_reach_edge(g: GraphV, a: Seq<u8>, t: Seq<u8>)
    requires
        g_succs(g, a).contains(t),
    ensures
        reaches(g, a, t),
{
    let p = seq![a, t];
    assert(p[0] == a);
    assert(p[p.len() - 1] == t);
    assert forall|i: int| 0 <= i < p.len() - 1 implies g_succs(g, #[trigger] p[i]).contains(
        p[i + 1],
    ) by {
        assert(i == 0);
    }
    assert(chain_ok(g, p, a, t));
}

/// A chain extended by one edge is a chain.
pub proof fn lemma_reach_step(g: GraphV, a: Seq<u8>, m: Seq<u8>, t: Seq<u8>)
    requires
        reaches(g, a, m),
        g_succs(g, m).contains(t),
    ensures
        reaches(g, a, t),
{
    let p = choose|p: Seq<Seq<u8>>| chain_ok(g, p, a, m);
    let q = p.push(t);
    assert(q[0] == a);
    assert(q[q.len() - 1] == t);
    assert forall|i: int| 0 <= i < q.len() - 1 implies g_succs(g, q[i]).contains(q[i + 1]) by {
        if i < p.len() - 1 {
            assert(q[i] == p[i]);
            assert(q[i + 1] == p[i + 1]);
        } else {
            assert(q[i] == p[p.len() - 1]);
        }
    }
    assert(chain_ok(g, q, a, t));
}

/// Reachability composes.
pub proof fn lemma_reach_trans(g: GraphV, a: Seq<u8>, b: Seq<u8>, c: Seq<u8>)
    requires
        reaches(g, a, b),
        reaches(g, b, c),
    ensures
        reaches(g, a, c),
{
    let p = choose|p: Seq<Seq<u8>>| chain_ok(g, p, a, b);
    let q = choose|q: Seq<Seq<u8>>| chain_ok(g, q, b, c);
    let r = p + q.skip(1);
    assert(r[0] == a);
    assert(r[r.len() - 1] == q[q.len() - 1]);
    assert forall|i: int| 0 <= i < r.len() - 1 implies g_succs(g, r[i]).contains(r[i + 1]) by {
        if i < p.len() - 1 {
            assert(r[i] == p[i]);
            assert(r[i + 1] == p[i + 1]);
        } else if i == p.len() - 1 {
            assert(r[i] == p[p.len() - 1]);
            assert(r[i + 1] == q.skip(1)[0]);
            assert(q.skip(1)[0] == q[1]);
            assert(g_succs(g, q[0]).contains(q[1]));
        } else {
            assert(r[i] == q.skip(1)[i - p.len()]);
            assert(r[i] == q[i - p.len() + 1]);
            assert(r[i + 1] == q[i - p.len() + 2]);
            assert(g_succs(g, q[i - p.len() + 1]).contains(q[i - p.len() + 2]));
        }
    }
    assert(chain_ok(g, r, a, c));
}

/// A node with an outgoing chain step stands in the graph.
pub proof fn lemma_reach_src_in_graph(g: GraphV, a: Seq<u8>, b: Seq<u8>)
    requires
        reaches(g, a, b),
    ensures
        exists|i: int| 0 <= i < g.len() && (#[trigger] g[i].0) == a,
    decreases g.len(),
{
    let p = choose|p: Seq<Seq<u8>>| chain_ok(g, p, a, b);
    assert(g_succs(g, p[0]).contains(p[1]));
    lemma_succs_nonempty_key(g, a);
}

/// A nonempty successor list belongs to a key of the graph.
pub proof fn lemma_succs_nonempty_key(g: GraphV, m: Seq<u8>)
    requires
        g_succs(g, m).len() > 0,
    ensures
        exists|i: int| 0 <= i < g.len() && (#[trigger] g[i].0) == m,
    decreases g.len(),
{
    if g.len() > 0 {
        if g[0].0 == m {
            assert(g[0].0 == m);
        } else {
            lemma_succs_nonempty_key(g.skip(1), m);
            let i = choose|i: int| 0 <= i < g.skip(1).len() && (#[trigger] g.skip(1)[i].0) == m;
            assert(g[i + 1].0 == m);
        }
    }
}

/// What is left to expand: the successor lists of keys not yet found.
pub open spec fn g_budget(g: GraphV, found: Seq<Seq<u8>>) -> nat
    decreases g.len(),
{
    if g.len() == 0 {
        0
    } else {
        (if found.contains(g[0].0) {
            0
        } else {
            g[0].1.len()
        }) + g_budget(g.skip(1), found)
    }
}

/// Expanding a newly found node pays for its successor list.
pub proof fn lemma_budget_add(g: GraphV, found: Seq<Seq<u8>>, m: Seq<u8>)
    requires
        !found.contains(m),
    ensures
        g_budget(g, found.push(m)) + g_succs(g, m).len() <= g_budget(g, found),
    decreases g.len(),
{
    if g.len() > 0 {
        assert forall|x: Seq<u8>| found.contains(x) implies found.push(m).contains(x) by {
            let j = choose|j: int| 0 <= j < found.len() && found[j] == x;
            assert(found.push(m)[j] == x);
        }
        if g[0].0 == m {
            assert(found.push(m).contains(m)) by {
                assert(found.push(m)[found.len() as int] == m);
            }
            lemma_budget_mono(g.skip(1), found, m);
        } else {
            lemma_budget_add(g.skip(1), found, m);
        }
    }
}

/// A larger found set never increases the budget.
pub proof fn lemma_budget_mono(g: GraphV, found: Seq<Seq<u8>>, m: Seq<u8>)
    ensures
        g_budget(g, found.push(m)) <= g_budget(g, found),
    decreases g.len(),
{
    if g.len() > 0 {
        assert forall|x: Seq<u8>| found.contains(x) implies found.push(m).contains(x) by {
            let j = choose|j: int| 0 <= j < found.len() && found[j] == x;
            assert(found.push(m)[j] == x);
        }
        lemma_budget_mono(g.skip(1), found, m);
    }
}

/// Every node reachable from `from` lies in a set that contains the
/// direct successors of `from` and is closed under edges.
pub proof fn lemma_closure_complete(
    g: GraphV,
    from: Seq<u8>,
    found: Seq<Seq<u8>>,
    p: Seq<Seq<u8>>,
)
    requires
        forall|t: Seq<u8>| g_succs(g, from).contains(t) ==> found.contains(t),
        forall|x: Seq<u8>, t: Seq<u8>|
            found.contains(x) && g_succs(g, x).contains(t) ==> found.contains(t),
        chain_ok(g, p, from, p[p.len() - 1]),
    ensures
        found.contains(p[p.len() - 1]),
    decreases p.len(),
{
    if p.len() == 2 {
        assert(g_succs(g, p[0]).contains(p[1]));
    } else {
        let q = p.drop_last();
        assert(q[0] == from);
        assert(forall|i: int| 0 <= i < q.len() - 1 ==> #[trigger] q[i] == p[i] && q[i + 1] == p[
            i + 1
        ]);
        assert(chain_ok(g, q, from, q[q.len() - 1]));
        lemma_closure_complete(g, from, found, q);
        assert(q[q.len() - 1] == p[p.len() - 2]);
        assert(g_succs(g, p[p.len() - 2]).contains(p[p.len() - 1]));
    }
}

/// Whether a list of byte strings holds `x`.
pub fn contains_name(v: &Vec<Vec<u8>>, x: &[u8]) -> (r: bool)
    ensures
        r <==> deep(v@).contains(x@),
{
    let mut i: usize = 0;
    while i < v.len()
        invariant
            i <= v.len(),
            forall|j: int| 0 <= j < i ==> deep(v@)[j] != x@,
        decreases v.len() - i,
    {
        if bytes_eq(v[i].as_slice(), x) {
            proof {
                assert(deep(v@)[i as int] == x@);
            }
            return true;
        }
        i = i + 1;
    }
    proof {
        if deep(v@).contains(x@) {
            let j = choose|j: int| 0 <= j < deep(v@).len() && deep(v@)[j] == x@;
            assert(deep(v@)[j] != x@);
        }
    }
    false
}

/// Looks up the first entry of `m` in the graph.
fn gfind(g: &Vec<(Vec<u8>, Vec<Vec<u8>>)>, m: &[u8]) -> (r: Option<usize>)
    ensures
        match r {
            Some(i) => i < g@.len() && graph_v(g@)[i as int].0 == m@ && g_succs(graph_v(g@), m@)
                == graph_v(g@)[i as int].1,
            None => g_succs(graph_v(g@), m@) == Seq::<Seq<u8>>::empty(),
        },
{
    let ghost gv = graph_v(g@);
    proof {
        assert(gv.skip(0) =~= gv);
    }
    let mut i: usize = 0;
    while i < g.len()
        invariant
            i <= g.len(),
            gv == graph_v(g@),
            g_succs(gv, m@) == g_succs(gv.skip(i as int), m@),
        decreases g.len() - i,
    {
        if bytes_eq(g[i].0.as_slice(), m) {
            proof {
                assert(gv.skip(i as int)[0] == gv[i as int]);
                assert(gv[i as int].0 == m@);
            }
            return Some(i);
        }
        proof {
            assert(gv.skip(i as int)[0] == gv[i as int]);
            assert(gv.skip(i as int).skip(1) =~= gv.skip(i as int + 1));
        }
        i = i + 1;
    }
    proof {
        assert(gv.skip(i as int).len() == 0);
    }
    None
}

/// The set of nodes reachable from `from` in at least one step.
pub fn reach_set(g: &Vec<(Vec<u8>, Vec<Vec<u8>>)>, from: &[u8]) -> (r: Vec<Vec<u8>>)
    ensures
        forall|x: Seq<u8>| deep(r@).contains(x) <==> reaches(graph_v(g@), from@, x),
{
    let ghost gv = graph_v(g@);
    let mut found: Vec<Vec<u8>> = Vec::new();
    let mut work: Vec<Vec<u8>>;
    match gfind(g, from) {
        Some(i) => {
            work = copy_bytes_list(&g[i].1);
            proof {
                assert(deep(work@) =~= gv[i as int].1);
            }
        },
        None => {
            work = Vec::new();
            proof {
                assert(deep(work@) =~= Seq::<Seq<u8>>::empty());
            }
        },
    }
    proof {
        assert(forall|j: int|
            0 <= j < deep(work@).len() ==> g_succs(gv, from@).contains(#[trigger] deep(work@)[j]));
        assert forall|j: int| 0 <= j < deep(work@).len() implies reaches(
            gv,
            from@,
            #[trigger] deep(work@)[j],
        ) by {
            lemma_reach_edge(gv, from@, deep(work@)[j]);
        }
        assert(forall|t: Seq<u8>|
            g_succs(gv, from@).contains(t) ==> deep(found@).contains(t) || deep(work@).contains(
                t,
            ));
    }
    while work.len() > 0
        invariant
            gv == graph_v(g@),
            forall|j: int| 0 <= j < deep(work@).len() ==> reaches(gv, from@, #[trigger] deep(work@)[j]),
            forall|j: int|
                0 <= j < deep(found@).len() ==> reaches(gv, from@, #[trigger] deep(found@)[j]),
            forall|t: Seq<u8>|
                g_succs(gv, from@).contains(t) ==> deep(found@).contains(t) || deep(
                    work@,
                ).contains(t),
            forall|x: Seq<u8>, t: Seq<u8>|
                deep(found@).contains(x) && g_succs(gv, x).contains(t) ==> deep(found@).contains(t)
                    || deep(work@).contains(t),
        decreases g_budget(gv, deep(found@)), work@.len(),
    {
        let ghost old_work_full = deep(work@);
        let x = work.remove(work.len() - 1);
        let ghost old_found = deep(found@);
        proof {
            assert(work@.len() == old_work_full.len() - 1);
            assert(deep(work@).len() == work@.len());
            assert(forall|j: int|
                0 <= j < deep(work@).len() ==> deep(work@)[j] == old_work_full[j]);
            assert(old_work_full[old_work_full.len() - 1] == x@);
            assert(old_work_full.contains(x@)) by {
                assert(old_work_full[old_work_full.len() - 1] == x@);
            }
            assert(forall|t: Seq<u8>|
                old_work_full.contains(t) && t != x@ ==> deep(work@).contains(t)) by {
                assert forall|t: Seq<u8>|
                    old_work_full.contains(t) && t != x@ implies deep(work@).contains(t) by {
                    let j = choose|j: int|
                        0 <= j < old_work_full.len() && old_work_full[j] == t;
                    assert(j < old_work_full.len() - 1);
                    assert(deep(work@)[j] == t);
                }
            }
            assert(reaches(gv, from@, x@));
            assert forall|j: int|
                0 <= j < deep(work@).len() implies reaches(gv, from@, #[trigger] deep(work@)[j])
                by {
                assert(deep(work@)[j] == old_work_full[j]);
            }
        }
        if !contains_name(&found, x.as_slice()) {
            proof {
                lemma_budget_add(gv, old_found, x@);
            }
            found.push(x);
            proof {
                assert(deep(found@) =~= old_found.push(x@));
                assert(g_budget(gv, deep(found@)) + g_succs(gv, x@).len() <= g_budget(
                    gv,
                    old_found,
                ));
            }
            match gfind(g, found[found.len() - 1].as_slice()) {
                Some(i) => {
                    let ghost pre_work = deep(work@);
                    let succs = &g[i].1;
                    let mut k: usize = 0;
                    while k < succs.len()
                        invariant
                            k <= succs.len(),
                            gv == graph_v(g@),
                            deep(found@) == old_found.push(x@),
                            g_succs(gv, x@) == gv[i as int].1,
                            i < g@.len(),
                            gv[i as int].1 == deep(succs@),
                            work@.len() == pre_work.len() + k,
                            deep(work@) =~= pre_work + deep(succs@).take(k as int),
                        decreases succs.len() - k,
                    {
                        let ghost wprev = work@;
                        work.push(copy_bytes(succs[k].as_slice()));
                        k = k + 1;
                        proof {
                            assert(work@ == wprev.push(work@[work@.len() - 1]));
                            assert(deep(work@).len() == work@.len());
                            assert forall|j: int|
                                0 <= j < deep(work@).len() implies deep(work@)[j] == (pre_work
                                + deep(succs@).take(k as int))[j] by {
                                assert(deep(work@)[j] == work@[j]@);
                                if j < wprev.len() {
                                    assert(work@[j] == wprev[j]);
                                    assert(deep(wprev)[j] == wprev[j]@);
                                    assert(deep(wprev)[j] == (pre_work + deep(succs@).take(k
                                        - 1))[j]);
                                } else {
                                    assert(work@[j]@ == succs@[k - 1]@);
                                    assert(deep(succs@)[k - 1] == succs@[k - 1]@);
                                }
                            }
                            assert(deep(work@) =~= pre_work + deep(succs@).take(k as int));
                        }
                    }
                    proof {
                        assert(deep(succs@).take(succs@.len() as int) =~= deep(succs@));
                        assert(deep(work@) =~= pre_work + deep(succs@));
                        assert forall|j: int|
                            0 <= j < deep(work@).len() implies reaches(
                            gv,
                            from@,
                            #[trigger] deep(work@)[j],
                        ) by {
                            if j < pre_work.len() {
                                assert(pre_work[j] == old_work_full[j]);
                            } else {
                                assert(deep(work@)[j] == deep(succs@)[j - pre_work.len()]);
                                assert(g_succs(gv, x@)[j - pre_work.len()] == deep(succs@)[j
                                    - pre_work.len()]);
                                assert(g_succs(gv, x@).contains(deep(succs@)[j - pre_work.len()]));
                                lemma_reach_step(gv, from@, x@, deep(work@)[j]);
                            }
                        }
                        assert forall|q: Seq<u8>, t: Seq<u8>|
                            deep(found@).contains(q) && g_succs(gv, q).contains(t) implies deep(
                            found@,
                        ).contains(t) || deep(work@).contains(t) by {
                            if q == x@ {
                                let j = choose|j: int|
                                    0 <= j < g_succs(gv, x@).len() && g_succs(gv, x@)[j] == t;
                                assert(deep(work@)[pre_work.len() + j] == t);
                            } else {
                                assert(old_found.contains(q)) by {
                                    let j = choose|j: int|
                                        0 <= j < deep(found@).len() && deep(found@)[j] == q;
                                    assert(j < old_found.len());
                                    assert(old_found[j] == q);
                                }
                                assert(old_found.contains(q) && g_succs(gv, q).contains(t)
                                    ==> old_found.contains(t) || old_work_full.contains(t));
                                if old_found.contains(t) {
                                    assert(deep(found@).contains(t)) by {
                                        let j = choose|j: int|
                                            0 <= j < old_found.len() && old_found[j] == t;
                                        assert(deep(found@)[j] == t);
                                    }
                                } else {
                                    if t == x@ {
                                        assert(deep(found@).contains(t)) by {
                                            assert(deep(found@)[old_found.len() as int] == x@);
                                        }
                                    } else {
                                        assert(pre_work.contains(t));
                                        assert(deep(work@).contains(t)) by {
                                            let j = choose|j: int|
                                                0 <= j < pre_work.len() && pre_work[j] == t;
                                            assert(deep(work@)[j] == t);
                                        }
                                    }
                                }
                            }
                        }
                        assert forall|t: Seq<u8>|
                            g_succs(gv, from@).contains(t) implies deep(found@).contains(t) || deep(
                            work@,
                        ).contains(t) by {
                            if old_found.contains(t) {
                                let j = choose|j: int| 0 <= j < old_found.len() && old_found[j] == t;
                                assert(deep(found@)[j] == t);
                            } else if t == x@ {
                                assert(deep(found@)[old_found.len() as int] == x@);
                            } else {
                                assert(old_work_full.contains(t));
                                assert(pre_work.contains(t));
                                let j = choose|j: int| 0 <= j < pre_work.len() && pre_work[j] == t;
                                assert(deep(work@)[j] == t);
                            }
                        }
                    }
                },
                None => {
                    proof {
                        assert(g_succs(gv, x@).len() == 0);
                        assert forall|q: Seq<u8>, t: Seq<u8>|
                            deep(found@).contains(q) && g_succs(gv, q).contains(t) implies deep(
                            found@,
                        ).contains(t) || deep(work@).contains(t) by {
                            if q == x@ {
                            } else {
                                assert(old_found.contains(q)) by {
                                    let j = choose|j: int|
                                        0 <= j < deep(found@).len() && deep(found@)[j] == q;
                                    assert(j < old_found.len());
                                    assert(old_found[j] == q);
                                }
                                if old_found.contains(t) {
                                    let j = choose|j: int|
                                        0 <= j < old_found.len() && old_found[j] == t;
                                    assert(deep(found@)[j] == t);
                                } else if t == x@ {
                                    assert(deep(found@)[old_found.len() as int] == x@);
                                } else {
                                    assert(old_work_full.contains(t));
                                    assert(deep(work@).contains(t));
                                }
                            }
                        }
                        assert forall|t: Seq<u8>|
                            g_succs(gv, from@).contains(t) implies deep(found@).contains(t) || deep(
                            work@,
                        ).contains(t) by {
                            if old_found.contains(t) {
                                let j = choose|j: int| 0 <= j < old_found.len() && old_found[j] == t;
                                assert(deep(found@)[j] == t);
                            } else if t == x@ {
                                assert(deep(found@)[old_found.len() as int] == x@);
                            } else {
                                assert(old_work_full.contains(t));
                                assert(deep(work@).contains(t));
                            }
                        }
                    }
                },
            }
        } else {
            proof {
                assert(deep(found@) == old_found);
                assert forall|q: Seq<u8>, t: Seq<u8>|
                    deep(found@).contains(q) && g_succs(gv, q).contains(t) implies deep(
                    found@,
                ).contains(t) || deep(work@).contains(t) by {
                    assert(old_found.contains(q) && g_succs(gv, q).contains(t)
                        ==> old_found.contains(t) || old_work_full.contains(t));
                    if !deep(found@).contains(t) {
                        assert(old_work_full.contains(t));
                        if t == x@ {
                            assert(deep(found@).contains(x@));
                        } else {
                            assert(deep(work@).contains(t));
                        }
                    }
                }
                assert forall|t: Seq<u8>|
                    g_succs(gv, from@).contains(t) implies deep(found@).contains(t) || deep(
                    work@,
                ).contains(t) by {
                    if !deep(found@).contains(t) {
                        assert(old_work_full.contains(t));
                        if t == x@ {
                        } else {
                            assert(deep(work@).contains(t));
                        }
                    }
                }
                lemma_budget_mono(gv, old_found, x@);
                assert(g_budget(gv, deep(found@)) == g_budget(gv, old_found));
            }
        }
    }
    proof {
        assert(work@.len() == 0);
        assert(deep(work@).len() == 0);
        assert forall|x: Seq<u8>| reaches(gv, from@, x) implies deep(found@).contains(x) by {
            let p = choose|p: Seq<Seq<u8>>| chain_ok(gv, p, from@, x);
            assert(p[p.len() - 1] == x);
            assert forall|t: Seq<u8>| g_succs(gv, from@).contains(t) implies deep(
                found@,
            ).contains(t) by {
                assert(deep(found@).contains(t) || deep(work@).contains(t));
            }
            assert forall|q: Seq<u8>, t: Seq<u8>|
                deep(found@).contains(q) && g_succs(gv, q).contains(t) implies deep(
                found@,
            ).contains(t) by {
                assert(deep(found@).contains(t) || deep(work@).contains(t));
            }
            lemma_closure_complete(gv, from@, deep(found@), p);
        }
    }
    found
}

/// Whether following imports from `n` can run into a cycle.
pub open spec fn has_cycle_from(g: GraphV, n: Seq<u8>) -> bool {
    exists|m: Seq<u8>| reaches(g, n, m) && reaches(g, m, m)
}

/// Decides `has_cycle_from` and returns, when there is a cycle, every
/// graph node that lies on a cycle reachable from `n`, in graph order.
pub fn cycle_nodes_from(g: &Vec<(Vec<u8>, Vec<Vec<u8>>)>, n: &[u8]) -> (r: Vec<Vec<u8>>)
    ensures
        deep(r@) == spec_cycle_nodes(graph_v(g@), n@, graph_v(g@).len() as int),
        r@.len() > 0 <==> has_cycle_from(graph_v(g@), n@),
{
    let ghost gv = graph_v(g@);
    let rn = reach_set(g, n);
    let mut out: Vec<Vec<u8>> = Vec::new();
    let mut i: usize = 0;
    while i < g.len()
        invariant
            i <= g.len(),
            gv == graph_v(g@),
            forall|x: Seq<u8>| deep(rn@).contains(x) <==> reaches(gv, n@, x),
            deep(out@) =~= spec_cycle_nodes(gv, n@, i as int),
        decreases g.len() - i,
    {
        let m = &g[i].0;
        proof {
            assert(gv[i as int].0 == m@);
        }
        if contains_name(&rn, m.as_slice()) {
            let rm = reach_set(g, m.as_slice());
            if contains_name(&rm, m.as_slice()) {
                out.push(copy_bytes(m.as_slice()));
            }
        }
        i = i + 1;
        proof {
            assert(deep(out@) =~= spec_cycle_nodes(gv, n@, i as int));
        }
    }
    proof {
        lemma_cycle_nodes_iff(gv, n@);
    }
    out
}

/// The graph nodes on a cycle reachable from `n`, among the first `i`
/// entries.
pub open spec fn spec_cycle_nodes(g: GraphV, n: Seq<u8>, i: int) -> Seq<Seq<u8>>
    decreases i,
{
    if i <= 0 {
        Seq::empty()
    } else {
        spec_cycle_nodes(g, n, i - 1) + if reaches(g, n, g[i - 1].0) && reaches(
            g,
            g[i - 1].0,
            g[i - 1].0,
        ) {
            seq![g[i - 1].0]
        } else {
            Seq::empty()
        }
    }
}

/// The cycle-node list is nonempty exactly when a cycle is reachable.
pub proof fn lemma_cycle_nodes_iff(g: GraphV, n: Seq<u8>)
    ensures
        spec_cycle_nodes(g, n, g.len() as int).len() > 0 <==> has_cycle_from(g, n),
{
    if spec_cycle_nodes(g, n, g.len() as int).len() > 0 {
        lemma_cycle_nodes_sound(g, n, g.len() as int);
    }
    if has_cycle_from(g, n) {
        let m = choose|m: Seq<u8>| reaches(g, n, m) && reaches(g, m, m);
        lemma_reach_src_in_graph(g, m, m);
        let i = choose|i: int| 0 <= i < g.len() && (#[trigger] g[i].0) == m;
        lemma_cycle_nodes_complete(g, n, i + 1, i);
        lemma_cycle_nodes_mono(g, n, i + 1, g.len() as int);
    }
}

proof fn lemma_cycle_nodes_sound(g: GraphV, n: Seq<u8>, i: int)
    requires
        spec_cycle_nodes(g, n, i).len() > 0,
        i <= g.len(),
    ensures
        has_cycle_from(g, n),
    decreases i,
{
    if i > 0 {
        if reaches(g, n, g[i - 1].0) && reaches(g, g[i - 1].0, g[i - 1].0) {
        } else {
            lemma_cycle_nodes_sound(g, n, i - 1);
        }
    }
}

proof fn lemma_cycle_nodes_complete(g: GraphV, n: Seq<u8>, i: int, w: int)
    requires
        0 <= w < i <= g.len(),
        reaches(g, n, g[w].0),
        reaches(g, g[w].0, g[w].0),
    ensures
        spec_cycle_nodes(g, n, i).len() > 0,
    decreases i,
{
    if w == i - 1 {
    } else {
        lemma_cycle_nodes_complete(g, n, i - 1, w);
    }
}

/// A graph node on a cycle reachable from `n` stands in the cycle list.
pub proof fn lemma_cycle_nodes_has(g: GraphV, n: Seq<u8>, i: int, w: int)
    requires
        0 <= w < i <= g.len(),
        reaches(g, n, g[w].0),
        reaches(g, g[w].0, g[w].0),
    ensures
        spec_cycle_nodes(g, n, i).contains(g[w].0),
    decreases i,
{
    if w == i - 1 {
        let l = spec_cycle_nodes(g, n, i);
        assert(l[l.len() - 1] == g[w].0);
    } else {
        lemma_cycle_nodes_has(g, n, i - 1, w);
        let pre = spec_cycle_nodes(g, n, i - 1);
        let j = choose|j: int| 0 <= j < pre.len() && pre[j] == g[w].0;
        assert(spec_cycle_nodes(g, n, i)[j] == g[w].0);
    }
}

proof fn lemma_cycle_nodes_mono(g: GraphV, n: Seq<u8>, i: int, j: int)
    requires
        0 <= i <= j,
    ensures
        spec_cycle_nodes(g, n, i).len() <= spec_cycle_nodes(g, n, j).len(),
    decreases j - i,
{
    if i < j {
        lemma_cycle_nodes_mono(g, n, i, j - 1);
    }
}

} // verus!
