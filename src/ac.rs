use vstd::prelude::*;

use crate::varmap::{
    lemma_patterns_inserted, lemma_reinsert, str_views, total_len, with_pattern, with_patterns, with_word,
    with_words, VarNode,
};

verus! {

/// The suffix of `s` of length `m`.
pub open spec fn sfx(s: Seq<char>, m: int) -> Seq<char> {
    s.subrange(s.len() - m, s.len() as int)
}

/// Whether `a` is a suffix of `b`.
pub open spec fn is_suffix(a: Seq<char>, b: Seq<char>) -> bool {
    a.len() <= b.len() && a == sfx(b, a.len() as int)
}

/// The longest suffix of `s`, of length at most `k`, that lies in `nodes`; the
/// empty word if there is none.
pub open spec fn best_suffix(nodes: Set<Seq<char>>, s: Seq<char>, k: nat) -> Seq<char>
    decreases k,
{
    if k == 0 {
        Seq::empty()
    } else if nodes.contains(sfx(s, k as int)) {
        sfx(s, k as int)
    } else {
        best_suffix(nodes, s, (k - 1) as nat)
    }
}

/// The word that the failure link of a node spelling `s` points at: the longest
/// proper suffix of `s` spelled by some node, or the empty word of the root.
pub open spec fn fail_word(nodes: Set<Seq<char>>, s: Seq<char>) -> Seq<char> {
    if s.len() == 0 {
        Seq::empty()
    } else {
        best_suffix(nodes, s, (s.len() - 1) as nat)
    }
}

/// What `best_suffix` returns: a suffix in `nodes`, and no longer one within
/// the bound.
pub proof fn lemma_best(nodes: Set<Seq<char>>, s: Seq<char>, k: nat)
    requires
        k <= s.len(),
        nodes.contains(Seq::<char>::empty()),
    ensures
        best_suffix(nodes, s, k).len() <= k,
        is_suffix(best_suffix(nodes, s, k), s),
        nodes.contains(best_suffix(nodes, s, k)),
        forall|m: int| best_suffix(nodes, s, k).len() < m <= k ==> !nodes.contains(#[trigger] sfx(s, m)),
    decreases k,
{
    if k == 0 {
        assert(sfx(s, 0) =~= Seq::<char>::empty());
    } else if !nodes.contains(sfx(s, k as int)) {
        lemma_best(nodes, s, (k - 1) as nat);
    } else {
        assert(sfx(s, k as int).len() == k);
    }
}

/// A suffix in `nodes` with no longer one in `nodes` within the bound is the
/// one that `best_suffix` returns.
pub proof fn lemma_best_eq(nodes: Set<Seq<char>>, s: Seq<char>, k: nat, x: Seq<char>)
    requires
        k <= s.len(),
        nodes.contains(Seq::<char>::empty()),
        x.len() <= k,
        is_suffix(x, s),
        nodes.contains(x),
        forall|m: int| x.len() < m <= k ==> !nodes.contains(#[trigger] sfx(s, m)),
    ensures
        best_suffix(nodes, s, k) == x,
{
    lemma_best(nodes, s, k);
    let b = best_suffix(nodes, s, k);
    if b.len() < x.len() {
        assert(!nodes.contains(sfx(s, x.len() as int)));
    } else if b.len() > x.len() {
        assert(!nodes.contains(sfx(s, b.len() as int)));
    }
}

/// A suffix of `s.push(c)` is a suffix of `s` followed by `c`.
pub proof fn lemma_sfx_push(s: Seq<char>, c: char, m: int)
    requires
        0 <= m <= s.len(),
    ensures
        sfx(s.push(c), m + 1) == sfx(s, m).push(c),
{
    assert(sfx(s.push(c), m + 1) =~= sfx(s, m).push(c));
}

/// A suffix of a suffix is a suffix.
pub proof fn lemma_sfx_sfx(s: Seq<char>, a: int, b: int)
    requires
        0 <= b <= a <= s.len(),
    ensures
        sfx(sfx(s, a), b) == sfx(s, b),
{
    assert(sfx(sfx(s, a), b) =~= sfx(s, b));
}

/// Whether entry `y` of the failure table `fails` is right for `trie`.
pub open spec fn fail_ok(trie: VarNode, fails: Seq<usize>, y: int) -> bool {
    &&& fails[y] < trie.size()
    &&& trie.spelled()[fails[y] as int] == fail_word(trie.nodes(), trie.spelled()[y])
}

/// Whether node `j` spells an inserted pattern that is a proper suffix of the
/// word of node `i`.
pub open spec fn pattern_suffix(trie: VarNode, i: int, j: int) -> bool {
    &&& 0 <= j < trie.size()
    &&& trie.patterns().contains(trie.spelled()[j])
    &&& is_suffix(trie.spelled()[j], trie.spelled()[i])
    &&& trie.spelled()[j].len() < trie.spelled()[i].len()
}

/// Whether entry `y` of the output table `outs` is right for `trie`: it is the
/// node of the longest pattern that is a proper suffix of the word of node `y`,
/// or the number of nodes when there is no such pattern.
pub open spec fn out_ok(trie: VarNode, outs: Seq<usize>, y: int) -> bool {
    let o = outs[y] as int;
    &&& o <= trie.size()
    &&& o < trie.size() ==> pattern_suffix(trie, y, o)
    &&& forall|j: int| #[trigger] pattern_suffix(trie, y, j) ==> o < trie.size() && trie.spelled()[j].len() <= trie.spelled()[o].len()
}

/// Follows failure links from `start` until a node with a child on `c` is
/// found, or the root is reached; returns that child, or the root.
///
/// `start` spells a suffix of `s` and no longer suffix of `s`, up to length
/// `k`, followed by `c` is spelled by a node: the result spells the longest
/// suffix of `s.push(c)`, of length at most `k + 1`, spelled by a node.
fn follow(
    trie: &VarNode,
    fails: &Vec<usize>,
    start: usize,
    c: char,
    Ghost(s): Ghost<Seq<char>>,
    Ghost(k): Ghost<nat>,
    Ghost(bound): Ghost<nat>,
) -> (r: usize)
    requires
        trie.wf(),
        fails@.len() == trie.size(),
        start < trie.size(),
        k <= s.len(),
        trie.spelled()[start as int].len() <= k,
        trie.spelled()[start as int].len() < bound,
        is_suffix(trie.spelled()[start as int], s),
        forall|y: int| 0 <= y < trie.size() && trie.spelled()[y].len() < bound ==> #[trigger] fail_ok(*trie, fails@, y),
        forall|m: int| trie.spelled()[start as int].len() < m <= k ==> !trie.nodes().contains(#[trigger] sfx(s, m).push(c)),
    ensures
        r < trie.size(),
        trie.spelled()[r as int] == best_suffix(trie.nodes(), s.push(c), k + 1),
{
    let ghost w = trie.spelled();
    let ghost nodes = trie.nodes();
    proof {
        trie.lemma_root_empty();
    }
    let mut f = start;
    loop
        invariant
            trie.wf(),
            fails@.len() == trie.size(),
            w == trie.spelled(),
            nodes == trie.nodes(),
            nodes.contains(Seq::<char>::empty()),
            f < trie.size(),
            k <= s.len(),
            w[f as int].len() <= k,
            w[f as int].len() < bound,
            is_suffix(w[f as int], s),
            forall|y: int| 0 <= y < trie.size() && w[y].len() < bound ==> #[trigger] fail_ok(*trie, fails@, y),
            forall|m: int| w[f as int].len() < m <= k ==> !nodes.contains(#[trigger] sfx(s, m).push(c)),
        decreases w[f as int].len(),
    {
        let lf = Ghost(w[f as int].len() as int);
        match trie.child(f, c) {
            Some(j) => {
                proof {
                    let x = w[f as int].push(c);
                    lemma_sfx_push(s, c, lf@);
                    assert(w.contains(x)) by {
                        assert(w[j as int] == x);
                    }
                    assert forall|m: int| x.len() < m <= k + 1 implies !nodes.contains(#[trigger] sfx(s.push(c), m)) by {
                        lemma_sfx_push(s, c, m - 1);
                    }
                    lemma_best_eq(nodes, s.push(c), k + 1, x);
                }
                return j;
            },
            None => {
                if f == 0 {
                    proof {
                        let x = Seq::<char>::empty();
                        assert(sfx(s.push(c), 0) =~= x);
                        assert forall|m: int| x.len() < m <= k + 1 implies !nodes.contains(#[trigger] sfx(s.push(c), m)) by {
                            lemma_sfx_push(s, c, m - 1);
                            if m == 1 {
                                assert(sfx(s, 0) =~= w[0]);
                            }
                        }
                        lemma_best_eq(nodes, s.push(c), k + 1, x);
                    }
                    return 0;
                }
                let g = fails[f];
                proof {
                    assert(fail_ok(*trie, fails@, f as int));
                    assert(w[f as int] != w[0]);
                    let wf = w[f as int];
                    assert(wf.len() > 0) by {
                        if wf.len() == 0 {
                            assert(wf =~= w[0]);
                        }
                    }
                    let lg = w[g as int].len() as int;
                    lemma_best(nodes, wf, (wf.len() - 1) as nat);
                    lemma_sfx_sfx(s, lf@, lg);
                    assert forall|m: int| lg < m <= k implies !nodes.contains(#[trigger] sfx(s, m).push(c)) by {
                        if m == lf@ {
                        } else if m < lf@ {
                            if nodes.contains(sfx(s, m).push(c)) {
                                trie.lemma_drop_last_closed(sfx(s, m).push(c));
                                assert(sfx(s, m).push(c).drop_last() =~= sfx(s, m));
                                lemma_sfx_sfx(s, lf@, m);
                                assert(!nodes.contains(sfx(wf, m)));
                            }
                        }
                    }
                }
                f = g;
            },
        }
    }
}

/// The length of the longest word in `w`.
pub open spec fn max_len(w: Seq<Seq<char>>) -> nat
    decreases w.len(),
{
    if w.len() == 0 {
        0
    } else {
        let m = max_len(w.drop_last());
        if w.last().len() > m {
            w.last().len()
        } else {
            m
        }
    }
}

/// No word of `w` is longer than `max_len(w)`.
pub proof fn lemma_max_len(w: Seq<Seq<char>>, i: int)
    requires
        0 <= i < w.len(),
    ensures
        w[i].len() <= max_len(w),
    decreases w.len(),
{
    if i < w.len() - 1 {
        lemma_max_len(w.drop_last(), i);
    }
}

/// An entry of a breadth-first level: `x` is the child of `p` on `c`, at depth `d`.
pub open spec fn level_ok(trie: VarNode, e: (usize, char, usize), d: nat) -> bool {
    &&& e.0 < trie.size()
    &&& e.2 < trie.size()
    &&& trie.spelled()[e.2 as int] == trie.spelled()[e.0 as int].push(e.1)
    &&& trie.spelled()[e.2 as int].len() == d
}

/// Computes the failure link and the output link of every node, breadth
/// first: one depth at a time, so that the links of all shallower nodes are
/// known when a node's own failure link is computed by following its parent's
/// chain, and its output link from its failure link.
fn build_links(trie: &VarNode) -> (r: (Vec<usize>, Vec<usize>))
    requires
        trie.wf(),
    ensures
        r.0@.len() == trie.size(),
        r.1@.len() == trie.size(),
        forall|y: int| 0 <= y < trie.size() ==> #[trigger] fail_ok(*trie, r.0@, y),
        forall|y: int| 0 <= y < trie.size() ==> #[trigger] out_ok(*trie, r.1@, y),
{
    let ghost w = trie.spelled();
    let ghost nodes = trie.nodes();
    let n = trie.len();
    let mut fails: Vec<usize> = Vec::new();
    let mut outs: Vec<usize> = Vec::new();
    let mut i: usize = 0;
    while i < n
        invariant
            fails@.len() == i,
            outs@.len() == i,
            i <= n,
            forall|y: int| 0 <= y < i ==> fails@[y] == 0,
            forall|y: int| 0 <= y < i ==> outs@[y] == n,
        decreases n - i,
    {
        fails.push(0);
        outs.push(n);
        i = i + 1;
    }
    let mut level: Vec<(usize, char, usize)> = Vec::new();
    let root_edges = trie.edges_of(0);
    let mut k: usize = 0;
    while k < root_edges.len()
        invariant
            trie.wf(),
            root_edges@ == trie.edges(0),
            k <= root_edges@.len(),
            level@.len() == k,
            forall|u: int| 0 <= u < k ==> #[trigger] level@[u] == (0usize, root_edges@[u].0, root_edges@[u].1),
        decreases root_edges@.len() - k,
    {
        level.push((0, root_edges[k].0, root_edges[k].1));
        k = k + 1;
    }
    let ghost mut d: nat = 1;
    proof {
        assert(trie.edges_wf(0));
        assert forall|u: int| 0 <= u < level@.len() implies #[trigger] level_ok(*trie, level@[u], d) by {
            assert(root_edges@[u] == trie.edges(0)[u]);
        }
        assert forall|y: int| 0 <= y < n && w[y].len() == d implies exists|u: int| 0 <= u < level@.len() && #[trigger] level@[u].2 == y by {
            assert(y != 0);
            assert(trie.parent_wf(y));
            let p = trie.parent_of(y);
            assert(w[p] =~= w[0]);
            let kk = choose|kk: int| 0 <= kk < trie.edges(p).len() && #[trigger] trie.edges(p)[kk] == (w[y].last(), y as usize);
            assert(level@[kk].2 == y);
        }
        assert forall|y: int| 0 <= y < n && w[y].len() < d implies #[trigger] fail_ok(*trie, fails@, y) by {
            if y != 0 {
                assert(w[y] =~= w[0]);
            }
        }
        assert forall|y: int| 0 <= y < n && w[y].len() < d implies #[trigger] out_ok(*trie, outs@, y) by {
            if y != 0 {
                assert(w[y] =~= w[0]);
            }
        }
        lemma_max_len(w, 0);
    }
    while level.len() > 0
        invariant
            trie.wf(),
            w == trie.spelled(),
            nodes == trie.nodes(),
            n == trie.size(),
            fails@.len() == n,
            d >= 1,
            d <= max_len(w) + 1,
            forall|u: int| 0 <= u < level@.len() ==> #[trigger] level_ok(*trie, level@[u], d),
            forall|y: int| 0 <= y < n && w[y].len() == d ==> exists|u: int| 0 <= u < level@.len() && #[trigger] level@[u].2 == y,
            forall|y: int| 0 <= y < n && w[y].len() < d ==> #[trigger] fail_ok(*trie, fails@, y),
            outs@.len() == n,
            forall|y: int| 0 <= y < n && w[y].len() < d ==> #[trigger] out_ok(*trie, outs@, y),
        decreases max_len(w) + 1 - d,
    {
        proof {
            assert(level_ok(*trie, level@[0], d));
            lemma_max_len(w, level@[0].2 as int);
        }
        let mut next: Vec<(usize, char, usize)> = Vec::new();
        let mut t: usize = 0;
        while t < level.len()
            invariant
                trie.wf(),
                w == trie.spelled(),
                nodes == trie.nodes(),
                n == trie.size(),
                fails@.len() == n,
                d >= 1,
                t <= level@.len(),
                forall|u: int| 0 <= u < level@.len() ==> #[trigger] level_ok(*trie, level@[u], d),
                forall|y: int| 0 <= y < n && w[y].len() < d ==> #[trigger] fail_ok(*trie, fails@, y),
                forall|u: int| 0 <= u < t ==> #[trigger] fail_ok(*trie, fails@, level@[u].2 as int),
                outs@.len() == n,
                forall|y: int| 0 <= y < n && w[y].len() < d ==> #[trigger] out_ok(*trie, outs@, y),
                forall|u: int| 0 <= u < t ==> #[trigger] out_ok(*trie, outs@, level@[u].2 as int),
                forall|u: int| 0 <= u < next@.len() ==> #[trigger] level_ok(*trie, next@[u], d + 1),
                forall|tp: int, y: int|
                    #![trigger level@[tp], trie.parent_of(y)]
                    0 <= tp < t && 0 < y < n && level@[tp].2 == trie.parent_of(y) ==> exists|u: int|
                        0 <= u < next@.len() && #[trigger] next@[u].2 == y,
            decreases level@.len() - t,
        {
            let (p, c, x) = level[t];
            proof {
                assert(level_ok(*trie, level@[t as int], d));
            }
            let fx = if p == 0 {
                proof {
                    assert(w[p as int] =~= Seq::<char>::empty());
                    assert(w[0] =~= best_suffix(nodes, w[x as int], 0));
                }
                0
            } else {
                let start = fails[p];
                proof {
                    assert(w[p as int] != w[0]);
                    assert(w[p as int].len() > 0) by {
                        if w[p as int].len() == 0 {
                            assert(w[p as int] =~= w[0]);
                        }
                    }
                    assert(fail_ok(*trie, fails@, p as int));
                    trie.lemma_root_empty();
                    let kp = (w[p as int].len() - 1) as nat;
                    lemma_best(nodes, w[p as int], kp);
                    assert forall|m: int| w[start as int].len() < m <= kp implies !nodes.contains(#[trigger] sfx(w[p as int], m).push(c)) by {
                        if nodes.contains(sfx(w[p as int], m).push(c)) {
                            trie.lemma_drop_last_closed(sfx(w[p as int], m).push(c));
                            assert(sfx(w[p as int], m).push(c).drop_last() =~= sfx(w[p as int], m));
                        }
                    }
                }
                follow(trie, &fails, start, c, Ghost(w[p as int]), Ghost((w[p as int].len() - 1) as nat), Ghost(d))
            };
            let ghost before = fails@;
            fails.set(x, fx);
            proof {
                assert(fail_ok(*trie, fails@, x as int));
                assert forall|y: int| 0 <= y < n && y != x implies fails@[y] == before[y] by {}
                assert forall|y: int| 0 <= y < n && w[y].len() < d implies #[trigger] fail_ok(*trie, fails@, y) by {
                    assert(fail_ok(*trie, before, y));
                }
                assert forall|u: int| 0 <= u <= t implies #[trigger] fail_ok(*trie, fails@, level@[u].2 as int) by {
                    if u < t && level@[u].2 != x {
                        assert(fail_ok(*trie, before, level@[u].2 as int));
                        assert(level_ok(*trie, level@[u], d));
                        assert(fails@[level@[u].2 as int] == before[level@[u].2 as int]);
                    }
                }
            }
            proof {
                trie.lemma_root_empty();
                lemma_best(nodes, w[x as int], (d - 1) as nat);
                assert(w[fx as int].len() < d);
                assert(out_ok(*trie, outs@, fx as int));
            }
            let ox = if trie.is_terminal(fx) {
                fx
            } else {
                outs[fx]
            };
            proof {
                lemma_out_step(*trie, fails@, outs@, x as int);
            }
            let ghost before_outs = outs@;
            outs.set(x, ox);
            proof {
                assert(out_ok(*trie, outs@, x as int));
                assert forall|y: int| 0 <= y < n && w[y].len() < d implies #[trigger] out_ok(*trie, outs@, y) by {
                    assert(out_ok(*trie, before_outs, y));
                    assert(outs@[y] == before_outs[y]);
                }
                assert forall|u: int| 0 <= u <= t implies #[trigger] out_ok(*trie, outs@, level@[u].2 as int) by {
                    if u < t && level@[u].2 != x {
                        assert(out_ok(*trie, before_outs, level@[u].2 as int));
                        assert(level_ok(*trie, level@[u], d));
                        assert(outs@[level@[u].2 as int] == before_outs[level@[u].2 as int]);
                    }
                }
            }
            let e = trie.edges_of(x);
            let ghost base = next@.len();
            let ghost prev = next@;
            let mut kk: usize = 0;
            while kk < e.len()
                invariant
                    trie.wf(),
                    w == trie.spelled(),
                    x < n,
                    n == trie.size(),
                    e@ == trie.edges(x as int),
                    w[x as int].len() == d,
                    kk <= e@.len(),
                    next@.len() == base + kk,
                    prev.len() == base,
                    forall|u: int| 0 <= u < next@.len() ==> #[trigger] level_ok(*trie, next@[u], d + 1),
                    forall|u: int| 0 <= u < kk ==> #[trigger] next@[base + u] == (x, e@[u].0, e@[u].1),
                    forall|u: int| 0 <= u < base ==> #[trigger] next@[u] == prev[u],
                decreases e@.len() - kk,
            {
                proof {
                    assert(trie.edges_wf(x as int));
                    assert(e@[kk as int] == trie.edges(x as int)[kk as int]);
                }
                next.push((x, e[kk].0, e[kk].1));
                kk = kk + 1;
            }
            proof {
                assert forall|tp: int, y: int|
                    #![trigger level@[tp], trie.parent_of(y)]
                    0 <= tp <= t && 0 < y < n && level@[tp].2 == trie.parent_of(y) implies exists|u: int|
                        0 <= u < next@.len() && #[trigger] next@[u].2 == y by {
                    if tp < t {
                        let u = choose|u: int| 0 <= u < prev.len() && #[trigger] prev[u].2 == y;
                        assert(next@[u].2 == y);
                    } else {
                        assert(trie.parent_wf(y));
                        let q = choose|q: int| 0 <= q < trie.edges(x as int).len() && #[trigger] trie.edges(x as int)[q] == (w[y].last(), y as usize);
                        assert(next@[base + q].2 == y);
                    }
                }
            }
            t = t + 1;
        }
        proof {
            assert forall|y: int| 0 <= y < n && w[y].len() == d + 1 implies exists|u: int| 0 <= u < next@.len() && #[trigger] next@[u].2 == y by {
                assert(y != 0);
                assert(trie.parent_wf(y));
                let p = trie.parent_of(y);
                let tp = choose|tp: int| 0 <= tp < level@.len() && #[trigger] level@[tp].2 == p;
                assert(level@[tp].2 == trie.parent_of(y));
            }
            assert forall|y: int| 0 <= y < n && w[y].len() < d + 1 implies #[trigger] fail_ok(*trie, fails@, y) by {
                if w[y].len() == d {
                    let tp = choose|tp: int| 0 <= tp < level@.len() && #[trigger] level@[tp].2 == y;
                    assert(fail_ok(*trie, fails@, level@[tp].2 as int));
                }
            }
            assert forall|y: int| 0 <= y < n && w[y].len() < d + 1 implies #[trigger] out_ok(*trie, outs@, y) by {
                if w[y].len() == d {
                    let tp = choose|tp: int| 0 <= tp < level@.len() && #[trigger] level@[tp].2 == y;
                    assert(out_ok(*trie, outs@, level@[tp].2 as int));
                }
            }
        }
        level = next;
        proof {
            d = d + 1;
        }
    }
    proof {
        assert forall|y: int| 0 <= y < n implies w[y].len() < d by {
            if w[y].len() >= d {
                trie.lemma_prefix_closed(y, d as int);
                let z = choose|z: int| 0 <= z < w.len() && w[z] == w[y].take(d as int);
                assert(w[z].len() == d);
                let u = choose|u: int| 0 <= u < level@.len() && #[trigger] level@[u].2 == z;
            }
        }
    }
    (fails, outs)
}

/// The output link of a node follows from its failure link: the failure link
/// itself if it ends a pattern, else the failure link's own output link.
pub proof fn lemma_out_step(trie: VarNode, fails: Seq<usize>, outs: Seq<usize>, x: int)
    requires
        trie.wf(),
        0 <= x < trie.size(),
        fails.len() == trie.size(),
        outs.len() == trie.size(),
        fail_ok(trie, fails, x),
        out_ok(trie, outs, fails[x] as int),
    ensures
        ({
            let f = fails[x] as int;
            let o = if trie.patterns().contains(trie.spelled()[f]) {
                f as usize
            } else {
                outs[f]
            };
            out_ok(trie, outs.update(x, o), x)
        }),
{
    let w = trie.spelled();
    let nodes = trie.nodes();
    let f = fails[x] as int;
    let o = if trie.patterns().contains(w[f]) {
        f as usize
    } else {
        outs[f]
    };
    let outs2 = outs.update(x, o);
    trie.lemma_root_empty();
    if x == 0 {
        assert forall|j: int| #[trigger] pattern_suffix(trie, x, j) implies outs2[x] < trie.size() && w[j].len() <= w[outs2[x] as int].len() by {}
        if o < trie.size() {
            assert(f == 0) by {
                if f != 0 {
                    assert(w[f] =~= w[0]);
                }
            }
            assert(!trie.patterns().contains(w[0]));
            assert(out_ok(trie, outs, 0));
            assert(w[o as int].len() < w[0].len());
        }
    } else {
        assert(w[x].len() > 0) by {
            if w[x].len() == 0 {
                assert(w[x] =~= w[0]);
            }
        }
        let k = (w[x].len() - 1) as nat;
        lemma_best(nodes, w[x], k);
        assert forall|j: int| #[trigger] pattern_suffix(trie, x, j) implies outs2[x] < trie.size() && w[j].len() <= w[outs2[x] as int].len() by {
            assert(nodes.contains(w[j]));
            assert(w[j].len() <= w[f].len()) by {
                if w[j].len() > w[f].len() {
                    assert(!nodes.contains(sfx(w[x], w[j].len() as int)));
                }
            }
            if !trie.patterns().contains(w[f]) {
                lemma_sfx_sfx(w[x], w[f].len() as int, w[j].len() as int);
                if w[j].len() == w[f].len() {
                    assert(w[j] == w[f]);
                } else {
                    assert(pattern_suffix(trie, f, j));
                }
            }
        }
        if o < trie.size() {
            if !trie.patterns().contains(w[f]) {
                assert(pattern_suffix(trie, f, o as int));
                lemma_sfx_sfx(w[x], w[f].len() as int, w[o as int].len() as int);
            }
        }
    }
}

/// Why an operation of the automaton was refused.
#[derive(Debug, Clone, Copy, PartialEq, Eq, Structural)]
pub enum AcError {
    /// A pattern was inserted after the failure links were built.
    InsertAfterSeal,
    /// The failure links were asked to be built a second time.
    DoubleFinalize,
    /// A transition or a scan was asked for before the failure links were built.
    QueryBeforeFinalize,
}

/// A multi-pattern matching automaton: a prefix trie whose nodes, once the
/// automaton is sealed, each carry a failure link to the node spelling the
/// longest proper suffix of their word that some node spells.
pub struct AcNode {
    trie: VarNode,
    fail: Vec<usize>,
    out: Vec<usize>,
    sealed: bool,
}

impl AcNode {
    /// The underlying trie.
    pub closed spec fn trie(&self) -> VarNode {
        self.trie
    }

    /// Whether the failure links have been built.
    pub closed spec fn is_sealed(&self) -> bool {
        self.sealed
    }

    /// The failure table, by node id (empty until sealed).
    pub closed spec fn fails(&self) -> Seq<usize> {
        self.fail@
    }

    /// The output table, by node id (empty until sealed).
    pub closed spec fn outs(&self) -> Seq<usize> {
        self.out@
    }

    /// The word that each node spells, by node id.
    pub open spec fn spelled(&self) -> Seq<Seq<char>> {
        self.trie().spelled()
    }

    /// The inserted patterns.
    pub open spec fn patterns(&self) -> Set<Seq<char>> {
        self.trie().patterns()
    }

    /// The words spelled by some node.
    pub open spec fn nodes(&self) -> Set<Seq<char>> {
        self.trie().nodes()
    }

    /// The number of nodes.
    pub open spec fn size(&self) -> nat {
        self.trie().size()
    }

    /// The automaton invariant: a well-formed trie, no links while unsealed,
    /// and a right failure link and output link for every node once sealed.
    pub open spec fn wf(&self) -> bool {
        &&& self.trie().wf()
        &&& !self.is_sealed() ==> self.fails().len() == 0 && self.outs().len() == 0
        &&& self.is_sealed() ==> {
            &&& self.fails().len() == self.size()
            &&& self.outs().len() == self.size()
            &&& forall|i: int| 0 <= i < self.size() ==> #[trigger] fail_ok(self.trie(), self.fails(), i)
            &&& forall|i: int| 0 <= i < self.size() ==> #[trigger] out_ok(self.trie(), self.outs(), i)
        }
    }

    /// An empty, unsealed automaton: the root alone.
    pub fn new() -> (r: AcNode)
        ensures
            r.wf(),
            !r.is_sealed(),
            r.spelled() == seq![Seq::<char>::empty()],
            r.patterns() == Set::<Seq<char>>::empty(),
    {
        AcNode { trie: VarNode::new(), fail: Vec::new(), out: Vec::new(), sealed: false }
    }

    /// Inserts the pattern `s`; the empty pattern changes nothing. Refused once
    /// the automaton is sealed.
    pub fn push_str(&mut self, s: &str) -> (r: Result<(), AcError>)
        requires
            old(self).wf(),
            old(self).size() + s@.len() < usize::MAX,
        ensures
            final(self).wf(),
            old(self).is_sealed() ==> r == Err::<(), AcError>(AcError::InsertAfterSeal) && *final(self) == *old(self),
            !old(self).is_sealed() ==> {
                &&& r == Ok::<(), AcError>(())
                &&& !final(self).is_sealed()
                &&& final(self).spelled() == with_word(old(self).spelled(), s@)
                &&& final(self).patterns() == with_pattern(old(self).patterns(), s@)
            },
            old(self).patterns().contains(s@) ==> final(self).spelled() == old(self).spelled()
                && final(self).patterns() == old(self).patterns(),
    {
        if self.sealed {
            return Err(AcError::InsertAfterSeal);
        }
        self.trie.push_str(s);
        Ok(())
    }

    /// Inserts each pattern of `vec` in turn. Refused once the automaton is
    /// sealed.
    pub fn push_str_by_arr(&mut self, vec: Vec<&str>) -> (r: Result<(), AcError>)
        requires
            old(self).wf(),
            old(self).size() + total_len(str_views(vec@)) < usize::MAX,
        ensures
            final(self).wf(),
            old(self).is_sealed() ==> r == Err::<(), AcError>(AcError::InsertAfterSeal) && *final(self) == *old(self),
            !old(self).is_sealed() ==> {
                &&& r == Ok::<(), AcError>(())
                &&& !final(self).is_sealed()
                &&& final(self).spelled() == with_words(old(self).spelled(), str_views(vec@))
                &&& final(self).patterns() == with_patterns(old(self).patterns(), str_views(vec@))
            },
    {
        if self.sealed {
            return Err(AcError::InsertAfterSeal);
        }
        self.trie.push_str_by_arr(vec);
        Ok(())
    }

    /// Whether `s` is an inserted pattern. Legal before and after sealing.
    pub fn pattern(&self, s: &str) -> (r: bool)
        requires
            self.wf(),
        ensures
            r == self.patterns().contains(s@),
    {
        self.trie.pattern(s)
    }

    /// The node spelling `s`, if there is one.
    pub fn locate(&self, s: &str) -> (r: Option<usize>)
        requires
            self.wf(),
        ensures
            match r {
                Some(i) => i < self.size() && self.spelled()[i as int] == s@,
                None => !self.nodes().contains(s@),
            },
    {
        self.trie.locate(s)
    }

    /// The number of nodes.
    pub fn len(&self) -> (r: usize)
        requires
            self.wf(),
        ensures
            r == self.size(),
    {
        self.trie.len()
    }

    /// Builds the failure link and the output link of every node and seals the
    /// automaton. Refused if it is sealed already.
    pub fn set_fail(&mut self) -> (r: Result<(), AcError>)
        requires
            old(self).wf(),
        ensures
            final(self).wf(),
            final(self).is_sealed(),
            final(self).trie() == old(self).trie(),
            old(self).is_sealed() ==> r == Err::<(), AcError>(AcError::DoubleFinalize) && *final(self) == *old(self),
            !old(self).is_sealed() ==> r == Ok::<(), AcError>(()),
    {
        if self.sealed {
            return Err(AcError::DoubleFinalize);
        }
        let (fails, outs) = build_links(&self.trie);
        self.fail = fails;
        self.out = outs;
        self.sealed = true;
        Ok(())
    }

    /// The parent of node `id`; `None` for the root and for ids out of range.
    pub fn get_prev_node(&self, id: usize) -> (r: Option<usize>)
        requires
            self.wf(),
        ensures
            (0 < id < self.size()) == r.is_some(),
            r.is_some() ==> r.unwrap() < self.size() && self.spelled()[r.unwrap() as int] == self.spelled()[id as int].drop_last(),
    {
        if id == 0 || id >= self.trie.len() {
            None
        } else {
            Some(self.trie.parent(id))
        }
    }

    /// The failure link of node `id`; `None` before sealing and for ids out of
    /// range.
    pub fn get_fail_node(&self, id: usize) -> (r: Option<usize>)
        requires
            self.wf(),
        ensures
            (self.is_sealed() && id < self.size()) == r.is_some(),
            r.is_some() ==> r.unwrap() < self.size() && self.spelled()[r.unwrap() as int] == fail_word(self.nodes(), self.spelled()[id as int]),
    {
        if !self.sealed || id >= self.trie.len() {
            None
        } else {
            proof {
                assert(fail_ok(self.trie(), self.fails(), id as int));
            }
            Some(self.fail[id])
        }
    }

    /// The transition function: from `state` on `c`, the node spelling the
    /// longest suffix of the state's word followed by `c` that some node
    /// spells (the root if none). Refused before sealing.
    pub fn goto(&self, state: usize, c: char) -> (r: Result<usize, AcError>)
        requires
            self.wf(),
            state < self.size(),
        ensures
            !self.is_sealed() ==> r == Err::<usize, AcError>(AcError::QueryBeforeFinalize),
            self.is_sealed() ==> r is Ok && r->Ok_0 < self.size() && self.spelled()[r->Ok_0 as int] == best_suffix(
                self.nodes(),
                self.spelled()[state as int].push(c),
                self.spelled()[state as int].len() + 1,
            ),
    {
        if !self.sealed {
            return Err(AcError::QueryBeforeFinalize);
        }
        Ok(self.step(state, c))
    }

    /// `goto` on a sealed automaton.
    fn step(&self, state: usize, c: char) -> (r: usize)
        requires
            self.wf(),
            self.is_sealed(),
            state < self.size(),
        ensures
            r < self.size(),
            self.spelled()[r as int] == best_suffix(
                self.nodes(),
                self.spelled()[state as int].push(c),
                self.spelled()[state as int].len() + 1,
            ),
    {
        let ghost w = self.spelled();
        proof {
            assert(sfx(w[state as int], w[state as int].len() as int) =~= w[state as int]);
        }
        follow(
            &self.trie,
            &self.fail,
            state,
            c,
            Ghost(w[state as int]),
            Ghost(w[state as int].len()),
            Ghost(w[state as int].len() + 1),
        )
    }
}

/// If `x` spells the longest suffix of `t` in the trie, the longest suffix of
/// `x.push(c)` in the trie is the longest suffix of `t.push(c)` in the trie.
pub proof fn lemma_state_step(trie: VarNode, t: Seq<char>, x: Seq<char>, c: char)
    requires
        trie.wf(),
        x == best_suffix(trie.nodes(), t, t.len()),
    ensures
        best_suffix(trie.nodes(), x.push(c), x.len() + 1) == best_suffix(trie.nodes(), t.push(c), t.len() + 1),
{
    let nodes = trie.nodes();
    trie.lemma_root_empty();
    lemma_best(nodes, t, t.len());
    let y = best_suffix(nodes, x.push(c), x.len() + 1);
    lemma_best(nodes, x.push(c), x.len() + 1);
    lemma_sfx_push(t, c, x.len() as int);
    assert(sfx(t.push(c), x.len() + 1int) == x.push(c));
    lemma_sfx_sfx(t.push(c), x.len() + 1int, y.len() as int);
    assert forall|m: int| y.len() < m <= t.len() + 1 implies !nodes.contains(#[trigger] sfx(t.push(c), m)) by {
        if nodes.contains(sfx(t.push(c), m)) {
            lemma_sfx_push(t, c, m - 1);
            trie.lemma_drop_last_closed(sfx(t, m - 1).push(c));
            assert(sfx(t, m - 1).push(c).drop_last() =~= sfx(t, m - 1));
            if m - 1 > x.len() {
                assert(!nodes.contains(sfx(t, m - 1)));
            } else {
                lemma_sfx_sfx(t.push(c), x.len() + 1int, m);
                assert(!nodes.contains(sfx(x.push(c), m)));
            }
        }
    }
    lemma_best_eq(nodes, t.push(c), t.len() + 1, y);
}

/// Whether node `u` ends, at position `pos` of `text`, an inserted pattern.
pub open spec fn ends_at(a: AcNode, text: Seq<char>, pos: int, u: int) -> bool {
    &&& 0 <= pos < text.len()
    &&& 0 <= u < a.size()
    &&& a.patterns().contains(a.spelled()[u])
    &&& is_suffix(a.spelled()[u], text.take(pos + 1))
}

/// `v` lists exactly the occurrences of inserted patterns in `text`, as pairs of
/// the position of the last character and the node; by increasing position,
/// and at one position from the longest pattern to the shortest.
pub open spec fn scan_ok(a: AcNode, text: Seq<char>, v: Seq<(usize, usize)>) -> bool {
    &&& forall|t: int| 0 <= t < v.len() ==> ends_at(a, text, #[trigger] v[t].0 as int, v[t].1 as int)
    &&& forall|pos: int, u: int| #[trigger] ends_at(a, text, pos, u) ==> exists|t: int|
        0 <= t < v.len() && #[trigger] v[t] == (pos as usize, u as usize)
    &&& forall|t1: int, t2: int|
        0 <= t1 < t2 < v.len() ==> (#[trigger] v[t1]).0 < (#[trigger] v[t2]).0 || (v[t1].0 == v[t2].0
            && a.spelled()[v[t1].1 as int].len() > a.spelled()[v[t2].1 as int].len())
}

impl AcNode {
    /// Every occurrence of an inserted pattern in `text`, as pairs of the
    /// position of its last character and the node spelling it. Pairs come in
    /// increasing position and, at one position, from the longest pattern to
    /// the shortest. Refused before sealing.
    ///
    /// Each character takes one transition; the occurrences ending there are
    /// found along output links, which pass over no node that ends no pattern.
    pub fn scan(&self, text: &str) -> (r: Result<Vec<(usize, usize)>, AcError>)
        requires
            self.wf(),
        ensures
            !self.is_sealed() ==> r == Err::<Vec<(usize, usize)>, AcError>(AcError::QueryBeforeFinalize),
            self.is_sealed() ==> r is Ok && scan_ok(*self, text@, r->Ok_0@),
    {
        if !self.sealed {
            return Err(AcError::QueryBeforeFinalize);
        }
        let ghost w = self.spelled();
        let ghost nodes = self.nodes();
        let ghost txt = text@;
        let cs = crate::utils::chars_of(text);
        let mut out: Vec<(usize, usize)> = Vec::new();
        let mut state: usize = 0;
        let mut i: usize = 0;
        proof {
            self.trie.lemma_root_empty();
            assert(txt.take(0) =~= Seq::<char>::empty());
            assert(w[0] == best_suffix(nodes, txt.take(0), 0));
        }
        while i < cs.len()
            invariant
                self.wf(),
                self.is_sealed(),
                w == self.spelled(),
                nodes == self.nodes(),
                nodes.contains(Seq::<char>::empty()),
                cs@ == txt,
                txt == text@,
                i <= cs@.len(),
                state < self.size(),
                w[state as int] == best_suffix(nodes, txt.take(i as int), i as nat),
                forall|t: int| 0 <= t < out@.len() ==> ends_at(*self, txt, #[trigger] out@[t].0 as int, out@[t].1 as int)
                    && out@[t].0 < i,
                forall|pos: int, u: int| #[trigger] ends_at(*self, txt, pos, u) && pos < i ==> exists|t: int|
                    0 <= t < out@.len() && #[trigger] out@[t] == (pos as usize, u as usize),
                forall|t1: int, t2: int|
                    0 <= t1 < t2 < out@.len() ==> (#[trigger] out@[t1]).0 < (#[trigger] out@[t2]).0 || (out@[t1].0
                        == out@[t2].0 && w[out@[t1].1 as int].len() > w[out@[t2].1 as int].len()),
            decreases cs@.len() - i,
        {
            let c = cs[i];
            let ghost tt = txt.take(i + 1);
            proof {
                assert(txt.take(i as int).push(c) =~= tt);
                lemma_state_step(self.trie, txt.take(i as int), w[state as int], c);
            }
            state = self.step(state, c);
            proof {
                lemma_best(nodes, tt, (i + 1) as nat);
            }
            let ghost base = out@.len();
            let ghost prev = out@;
            let n = self.trie.len();
            let mut u: usize = if self.trie.is_terminal(state) {
                state
            } else {
                self.out[state]
            };
            proof {
                assert(out_ok(self.trie, self.out@, state as int));
                assert(is_suffix(w[state as int], tt));
                assert forall|v: int| #[trigger] ends_at(*self, txt, i as int, v) implies v == state || pattern_suffix(
                    self.trie,
                    state as int,
                    v,
                ) by {
                    assert(nodes.contains(w[v]));
                    lemma_sfx_sfx(tt, w[state as int].len() as int, w[v].len() as int);
                    assert(w[v].len() <= w[state as int].len()) by {
                        if w[v].len() > w[state as int].len() {
                            assert(!nodes.contains(sfx(tt, w[v].len() as int)));
                        }
                    }
                    if w[v].len() == w[state as int].len() {
                        assert(w[v] == w[state as int]);
                    }
                }
                if u < n {
                    if u != state {
                        assert(pattern_suffix(self.trie, state as int, u as int));
                        lemma_sfx_sfx(tt, w[state as int].len() as int, w[u as int].len() as int);
                    }
                    assert(ends_at(*self, txt, i as int, u as int));
                }
            }
            loop
                invariant_except_break
                    forall|t: int| base <= t < out@.len() ==> (#[trigger] out@[t]).0 == i && ends_at(*self, txt, i as int, out@[t].1 as int)
                        && (u < n ==> w[out@[t].1 as int].len() > w[u as int].len()),
                    forall|t1: int, t2: int|
                        base <= t1 < t2 < out@.len() ==> w[(#[trigger] out@[t1]).1 as int].len() > w[(#[trigger] out@[t2]).1 as int].len(),
                    forall|v: int| #[trigger] ends_at(*self, txt, i as int, v) && (u == n || w[v].len() > w[u as int].len()) ==> exists|t: int|
                        base <= t < out@.len() && #[trigger] out@[t] == (i, v as usize),
                    u < n ==> ends_at(*self, txt, i as int, u as int),
                invariant
                    self.wf(),
                    self.is_sealed(),
                    n == self.size(),
                    u <= n,
                    w == self.spelled(),
                    nodes == self.nodes(),
                    nodes.contains(Seq::<char>::empty()),
                    txt == text@,
                    i < txt.len(),
                    tt == txt.take(i + 1),
                    base <= out@.len(),
                    prev.len() == base,
                    forall|t: int| 0 <= t < base ==> #[trigger] out@[t] == prev[t],
                    forall|t: int| 0 <= t < base ==> ends_at(*self, txt, #[trigger] prev[t].0 as int, prev[t].1 as int)
                        && prev[t].0 < i,
                    forall|pos: int, v: int| #[trigger] ends_at(*self, txt, pos, v) && pos < i ==> exists|t: int|
                        0 <= t < base && #[trigger] prev[t] == (pos as usize, v as usize),
                    forall|t1: int, t2: int|
                        0 <= t1 < t2 < base ==> (#[trigger] prev[t1]).0 < (#[trigger] prev[t2]).0 || (prev[t1].0
                            == prev[t2].0 && w[prev[t1].1 as int].len() > w[prev[t2].1 as int].len()),
                ensures
                    forall|t: int| 0 <= t < out@.len() ==> ends_at(*self, txt, #[trigger] out@[t].0 as int, out@[t].1 as int)
                        && out@[t].0 < i + 1,
                    forall|pos: int, v: int| #[trigger] ends_at(*self, txt, pos, v) && pos < i + 1 ==> exists|t: int|
                        0 <= t < out@.len() && #[trigger] out@[t] == (pos as usize, v as usize),
                    forall|t1: int, t2: int|
                        0 <= t1 < t2 < out@.len() ==> (#[trigger] out@[t1]).0 < (#[trigger] out@[t2]).0 || (out@[t1].0
                            == out@[t2].0 && w[out@[t1].1 as int].len() > w[out@[t2].1 as int].len()),
                decreases if u < n {
                    w[u as int].len() + 1
                } else {
                    0
                },
            {
                if u == n {
                    proof {
                        assert forall|t: int| 0 <= t < out@.len() implies ends_at(*self, txt, #[trigger] out@[t].0 as int, out@[t].1 as int)
                            && out@[t].0 < i + 1 by {
                            if t < base {
                                assert(out@[t] == prev[t]);
                            }
                        }
                        assert forall|pos: int, v: int| #[trigger] ends_at(*self, txt, pos, v) && pos < i + 1 implies exists|t: int|
                            0 <= t < out@.len() && #[trigger] out@[t] == (pos as usize, v as usize) by {
                            if pos < i {
                                let t = choose|t: int| 0 <= t < base && #[trigger] prev[t] == (pos as usize, v as usize);
                                assert(out@[t] == prev[t]);
                            } else {
                                assert(pos == i);
                            }
                        }
                        assert forall|t1: int, t2: int|
                            0 <= t1 < t2 < out@.len() implies (#[trigger] out@[t1]).0 < (#[trigger] out@[t2]).0 || (out@[t1].0
                                == out@[t2].0 && w[out@[t1].1 as int].len() > w[out@[t2].1 as int].len()) by {
                            if t2 < base {
                                assert(out@[t1] == prev[t1]);
                                assert(out@[t2] == prev[t2]);
                            } else if t1 < base {
                                assert(out@[t1] == prev[t1]);
                            }
                        }
                    }
                    break;
                }
                let ghost before = out@;
                out.push((i, u));
                let g = self.out[u];
                proof {
                    assert(out_ok(self.trie, self.out@, u as int));
                    let wu = w[u as int];
                    assert forall|v: int| #[trigger] ends_at(*self, txt, i as int, v) && (g == n || w[v].len() > w[g as int].len())
                        implies exists|t: int| base <= t < out@.len() && #[trigger] out@[t] == (i, v as usize) by {
                        if w[v].len() > wu.len() {
                            let t = choose|t: int| base <= t < before.len() && #[trigger] before[t] == (i, v as usize);
                            assert(out@[t] == before[t]);
                        } else if w[v].len() == wu.len() {
                            assert(w[v] == wu);
                            assert(v == u);
                            assert(out@[out@.len() - 1] == (i, v as usize));
                        } else {
                            lemma_sfx_sfx(tt, wu.len() as int, w[v].len() as int);
                            assert(pattern_suffix(self.trie, u as int, v));
                        }
                    }
                    if g < n {
                        assert(pattern_suffix(self.trie, u as int, g as int));
                        lemma_sfx_sfx(tt, wu.len() as int, w[g as int].len() as int);
                        assert(ends_at(*self, txt, i as int, g as int));
                    }
                    assert forall|t: int| base <= t < out@.len() implies (#[trigger] out@[t]).0 == i && ends_at(*self, txt, i as int, out@[t].1 as int)
                        && (g < n ==> w[out@[t].1 as int].len() > w[g as int].len()) by {
                        if t < before.len() {
                            assert(out@[t] == before[t]);
                        }
                    }
                    assert forall|t1: int, t2: int|
                        base <= t1 < t2 < out@.len() implies w[(#[trigger] out@[t1]).1 as int].len() > w[(#[trigger] out@[t2]).1 as int].len() by {
                        if t2 < before.len() {
                            assert(out@[t1] == before[t1]);
                            assert(out@[t2] == before[t2]);
                        } else {
                            assert(out@[t1] == before[t1]);
                        }
                    }
                }
                u = g;
            }
            i = i + 1;
        }
        proof {
            assert forall|pos: int, u: int| #[trigger] ends_at(*self, text@, pos, u) implies exists|t: int|
                0 <= t < out@.len() && #[trigger] out@[t] == (pos as usize, u as usize) by {
                assert(pos < i);
            }
        }
        Ok(out)
    }
}

/// Once sealed, the root's failure link points at the root itself.
pub proof fn lemma_root_fails_to_root(a: AcNode)
    requires
        a.wf(),
        a.is_sealed(),
    ensures
        a.fails()[0] == 0,
{
    assert(fail_ok(a.trie(), a.fails(), 0));
    let f = a.fails()[0] as int;
    if f != 0 {
        assert(a.spelled()[f] =~= a.spelled()[0]);
    }
}

/// Once sealed, the failure link of every non-root node points at a node
/// spelling a proper suffix of its word, and no node spells a longer proper
/// suffix of it; the root's points at the root.
pub proof fn lemma_fail_longest_suffix(a: AcNode, i: int)
    requires
        a.wf(),
        a.is_sealed(),
        0 <= i < a.size(),
    ensures
        ({
            let w = a.spelled();
            let f = a.fails()[i] as int;
            &&& 0 <= f < a.size()
            &&& i == 0 ==> f == 0
            &&& i != 0 ==> is_suffix(w[f], w[i]) && w[f].len() < w[i].len()
            &&& forall|j: int|
                0 <= j < a.size() && is_suffix(#[trigger] w[j], w[i]) && w[j].len() < w[i].len() ==> w[j].len() <= w[f].len()
        }),
{
    let w = a.spelled();
    let nodes = a.nodes();
    let f = a.fails()[i] as int;
    assert(fail_ok(a.trie(), a.fails(), i));
    a.trie().lemma_root_empty();
    if i == 0 {
        lemma_root_fails_to_root(a);
    } else {
        assert(w[i] != w[0]);
        assert(w[i].len() > 0) by {
            if w[i].len() == 0 {
                assert(w[i] =~= w[0]);
            }
        }
        lemma_best(nodes, w[i], (w[i].len() - 1) as nat);
        assert forall|j: int|
            0 <= j < a.size() && is_suffix(#[trigger] w[j], w[i]) && w[j].len() < w[i].len() implies w[j].len() <= w[f].len() by {
            assert(nodes.contains(w[j]));
        }
    }
}

/// The failure links depend on the trie alone: two sealed automata over
/// tries with the same nodes, by id, have the same failure table.
pub proof fn lemma_fails_determined(a: AcNode, b: AcNode)
    requires
        a.wf(),
        a.is_sealed(),
        b.wf(),
        b.is_sealed(),
        a.spelled() == b.spelled(),
    ensures
        a.fails() == b.fails(),
{
    assert forall|i: int| 0 <= i < a.size() implies a.fails()[i] == b.fails()[i] by {
        assert(fail_ok(a.trie(), a.fails(), i));
        assert(fail_ok(b.trie(), b.fails(), i));
        assert(a.nodes() == b.nodes());
        let fa = a.fails()[i] as int;
        let fb = b.fails()[i] as int;
        if fa != fb {
            assert(a.spelled()[fa] != a.spelled()[fb]);
        }
    }
    assert(a.fails() =~= b.fails());
}

/// In an automaton whose patterns are those of a list inserted into a new
/// automaton, a word is found exactly when it is a nonempty pattern of the list.
pub proof fn lemma_found_exactly_inserted(a: AcNode, ps: Seq<Seq<char>>, t: Seq<char>)
    requires
        a.wf(),
        a.patterns() == with_patterns(Set::empty(), ps),
    ensures
        a.patterns().contains(t) <==> (t.len() > 0 && ps.contains(t)),
{
    lemma_patterns_inserted(ps, t);
}

/// Inserting a pattern a second time, after any other insertions, changes
/// neither the nodes nor, once sealed, any failure link.
pub proof fn lemma_reinsert_same_links(
    a: AcNode,
    b: AcNode,
    w: Seq<Seq<char>>,
    p: Seq<char>,
    qs: Seq<Seq<char>>,
)
    requires
        a.wf(),
        a.is_sealed(),
        b.wf(),
        b.is_sealed(),
        a.spelled() == with_words(with_word(w, p), qs),
        b.spelled() == with_word(with_words(with_word(w, p), qs), p),
    ensures
        a.spelled() == b.spelled(),
        a.fails() == b.fails(),
{
    lemma_reinsert(w, Set::empty(), p, qs);
    lemma_fails_determined(a, b);
}

/// A place in an automaton: the state reached so far, and the root.
pub struct AcManger {
    pub current_node: usize,
    pub head: usize,
}

} // verus!
