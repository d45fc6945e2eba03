use vstd::prelude::*;

use crate::utils::chars_of;

verus! {

/// The word list of an arena after the first `k` nonempty prefixes of `p` have
/// been walked: each prefix that no node spells yet is appended, in order.
pub open spec fn grown(w: Seq<Seq<char>>, p: Seq<char>, k: nat) -> Seq<Seq<char>>
    decreases k,
{
    if k == 0 {
        w
    } else {
        let w1 = grown(w, p, (k - 1) as nat);
        if w1.contains(p.take(k as int)) {
            w1
        } else {
            w1.push(p.take(k as int))
        }
    }
}

/// The word list of an arena after inserting `p`.
pub open spec fn with_word(w: Seq<Seq<char>>, p: Seq<char>) -> Seq<Seq<char>> {
    grown(w, p, p.len())
}

/// The pattern set after inserting `p`: the empty pattern is ignored.
pub open spec fn with_pattern(s: Set<Seq<char>>, p: Seq<char>) -> Set<Seq<char>> {
    if p.len() == 0 {
        s
    } else {
        s.insert(p)
    }
}

/// The word list after inserting each pattern of `ps` in turn.
pub open spec fn with_words(w: Seq<Seq<char>>, ps: Seq<Seq<char>>) -> Seq<Seq<char>>
    decreases ps.len(),
{
    if ps.len() == 0 {
        w
    } else {
        with_word(with_words(w, ps.drop_last()), ps.last())
    }
}

/// The pattern set after inserting each pattern of `ps` in turn.
pub open spec fn with_patterns(s: Set<Seq<char>>, ps: Seq<Seq<char>>) -> Set<Seq<char>>
    decreases ps.len(),
{
    if ps.len() == 0 {
        s
    } else {
        with_pattern(with_patterns(s, ps.drop_last()), ps.last())
    }
}

/// Total length of the patterns in `ps`.
pub open spec fn total_len(ps: Seq<Seq<char>>) -> nat
    decreases ps.len(),
{
    if ps.len() == 0 {
        0
    } else {
        total_len(ps.drop_last()) + ps.last().len()
    }
}

/// The character sequences of a list of string slices.
pub open spec fn str_views(v: Seq<&str>) -> Seq<Seq<char>> {
    v.map_values(|x: &str| x@)
}

/// `grown` spells every nonempty prefix of `p` it has walked.
pub proof fn lemma_grown_contains(w: Seq<Seq<char>>, p: Seq<char>, k: nat)
    ensures
        forall|j: int| 1 <= j <= k ==> #[trigger] grown(w, p, k).contains(p.take(j)),
        grown(w, p, k).len() <= w.len() + k,
        forall|i: int| 0 <= i < w.len() ==> #[trigger] grown(w, p, k)[i] == w[i],
        w.len() <= grown(w, p, k).len(),
    decreases k,
{
    if k > 0 {
        lemma_grown_contains(w, p, (k - 1) as nat);
        let w1 = grown(w, p, (k - 1) as nat);
        assert forall|j: int| 1 <= j <= k implies #[trigger] grown(w, p, k).contains(p.take(j)) by {
            if j < k {
                assert(w1.contains(p.take(j)));
                let i = choose|i: int| 0 <= i < w1.len() && w1[i] == p.take(j);
                assert(grown(w, p, k)[i] == p.take(j));
            } else if !w1.contains(p.take(k as int)) {
                assert(grown(w, p, k)[w1.len() as int] == p.take(j));
            }
        }
    }
}

/// Walking prefixes that are all spelled already changes nothing.
pub proof fn lemma_grown_stable(w: Seq<Seq<char>>, p: Seq<char>, k: nat)
    requires
        forall|j: int| 1 <= j <= k ==> #[trigger] w.contains(p.take(j)),
    ensures
        grown(w, p, k) == w,
    decreases k,
{
    if k > 0 {
        lemma_grown_stable(w, p, (k - 1) as nat);
        assert(w.contains(p.take(k as int)));
    }
}

/// Inserting the same pattern a second time leaves the trie's shape, node ids
/// included, and its pattern set as they were after the first insertion.
pub proof fn lemma_insert_idempotent(w: Seq<Seq<char>>, s: Set<Seq<char>>, p: Seq<char>)
    ensures
        with_word(with_word(w, p), p) == with_word(w, p),
        with_pattern(with_pattern(s, p), p) == with_pattern(s, p),
{
    lemma_grown_contains(w, p, p.len());
    lemma_grown_stable(with_word(w, p), p, p.len());
    if p.len() > 0 {
        assert(s.insert(p).insert(p) =~= s.insert(p));
    }
}

/// Inserting patterns keeps every node that was there, under its id.
pub proof fn lemma_with_words_keeps(w: Seq<Seq<char>>, qs: Seq<Seq<char>>)
    ensures
        w.len() <= with_words(w, qs).len(),
        forall|i: int| 0 <= i < w.len() ==> #[trigger] with_words(w, qs)[i] == w[i],
    decreases qs.len(),
{
    if qs.len() > 0 {
        lemma_with_words_keeps(w, qs.drop_last());
        lemma_grown_contains(with_words(w, qs.drop_last()), qs.last(), qs.last().len());
    }
}

/// A pattern inserted again, after any other insertions, changes neither the
/// trie's shape, node ids included, nor its pattern set.
pub proof fn lemma_reinsert(w: Seq<Seq<char>>, s: Set<Seq<char>>, p: Seq<char>, qs: Seq<Seq<char>>)
    ensures
        with_word(with_words(with_word(w, p), qs), p) == with_words(with_word(w, p), qs),
        with_pattern(with_patterns(with_pattern(s, p), qs), p) == with_patterns(with_pattern(s, p), qs),
{
    let w1 = with_word(w, p);
    let w2 = with_words(w1, qs);
    lemma_grown_contains(w, p, p.len());
    lemma_with_words_keeps(w1, qs);
    assert forall|j: int| 1 <= j <= p.len() implies #[trigger] w2.contains(p.take(j)) by {
        assert(w1.contains(p.take(j)));
        let i = choose|i: int| 0 <= i < w1.len() && w1[i] == p.take(j);
        assert(w2[i] == p.take(j));
    }
    lemma_grown_stable(w2, p, p.len());
    lemma_patterns_keep(with_pattern(s, p), qs, p);
    if p.len() > 0 {
        assert(with_patterns(with_pattern(s, p), qs).insert(p) =~= with_patterns(with_pattern(s, p), qs));
    }
}

/// Inserting patterns keeps every pattern that was there.
pub proof fn lemma_patterns_keep(s: Set<Seq<char>>, qs: Seq<Seq<char>>, p: Seq<char>)
    requires
        s.contains(p) || p.len() == 0,
    ensures
        with_patterns(s, qs).contains(p) || p.len() == 0,
    decreases qs.len(),
{
    if qs.len() > 0 {
        lemma_patterns_keep(s, qs.drop_last(), p);
    }
}

/// After inserting a list of patterns into an empty trie, a word is a pattern
/// exactly when it is nonempty and occurs in the list.
pub proof fn lemma_patterns_inserted(ps: Seq<Seq<char>>, t: Seq<char>)
    ensures
        with_patterns(Set::empty(), ps).contains(t) <==> (t.len() > 0 && ps.contains(t)),
    decreases ps.len(),
{
    if ps.len() > 0 {
        lemma_patterns_inserted(ps.drop_last(), t);
        if ps.drop_last().contains(t) {
            let i = choose|i: int| 0 <= i < ps.drop_last().len() && ps.drop_last()[i] == t;
            assert(ps[i] == t);
        }
        if ps.contains(t) && t != ps.last() {
            let i = choose|i: int| 0 <= i < ps.len() && ps[i] == t;
            assert(ps.drop_last()[i] == t);
        }
    }
}

/// A prefix trie over `char`, kept in a flat arena. Node 0 is the root and
/// spells the empty word; every other node is reached from its parent by one
/// labelled edge.
pub struct VarNode {
    children: Vec<Vec<(char, usize)>>,
    parents: Vec<usize>,
    terminal: Vec<bool>,
    words: Ghost<Seq<Seq<char>>>,
    pats: Ghost<Set<Seq<char>>>,
}

impl VarNode {
    /// The word that each node spells, by node id.
    pub closed spec fn spelled(&self) -> Seq<Seq<char>> {
        self.words@
    }

    /// The patterns inserted so far.
    pub closed spec fn patterns(&self) -> Set<Seq<char>> {
        self.pats@
    }

    /// The parent of node `i` (unused for the root).
    pub closed spec fn parent_of(&self, i: int) -> int {
        self.parents@[i] as int
    }

    /// Whether node `i` ends an inserted pattern.
    pub closed spec fn terminal_at(&self, i: int) -> bool {
        self.terminal@[i]
    }

    /// The children of node `i`, as (label, child) pairs.
    pub closed spec fn edges(&self, i: int) -> Seq<(char, usize)> {
        self.children@[i]@
    }

    /// The number of nodes.
    pub open spec fn size(&self) -> nat {
        self.spelled().len()
    }

    /// The set of words that some node spells.
    pub open spec fn nodes(&self) -> Set<Seq<char>> {
        self.spelled().to_set()
    }

    /// The edge list of one node: each child spells the node's word and its label,
    /// and no label occurs twice.
    pub open spec fn edges_wf(&self, i: int) -> bool {
        let w = self.spelled();
        let e = self.edges(i);
        &&& forall|k: int|
            0 <= k < e.len() ==> (#[trigger] e[k]).1 < self.size() && w[e[k].1 as int] == w[i].push(
                e[k].0,
            )
        &&& forall|k1: int, k2: int|
            0 <= k1 < e.len() && 0 <= k2 < e.len() && k1 != k2 ==> (#[trigger] e[k1]).0 != (
            #[trigger] e[k2]).0
    }

    /// A non-root node hangs below its parent, under its last symbol.
    pub open spec fn parent_wf(&self, j: int) -> bool {
        let w = self.spelled();
        let p = self.parent_of(j);
        &&& 0 <= p < self.size()
        &&& w[j].len() > 0
        &&& w[p] == w[j].drop_last()
        &&& exists|k: int| 0 <= k < self.edges(p).len() && #[trigger] self.edges(p)[k] == (w[j].last(), j as usize)
    }

    /// The arena invariant.
    pub open spec fn wf(&self) -> bool {
        let w = self.spelled();
        &&& self.size() >= 1
        &&& self.size() < usize::MAX
        &&& w[0] == Seq::<char>::empty()
        &&& self.wf_arrays()
        &&& forall|i: int| 0 <= i < self.size() ==> #[trigger] self.edges_wf(i)
        &&& forall|j: int| 0 < j < self.size() ==> #[trigger] self.parent_wf(j)
        &&& forall|i: int, j: int|
            0 <= i < self.size() && 0 <= j < self.size() && i != j ==> #[trigger] w[i] != #[trigger] w[j]
        &&& forall|i: int| 0 <= i < self.size() ==> #[trigger] self.terminal_at(i) == self.patterns().contains(w[i])
        &&& forall|s: Seq<char>| #[trigger] self.patterns().contains(s) ==> w.contains(s)
        &&& !self.patterns().contains(Seq::<char>::empty())
    }

    /// The parallel arrays have one entry per node.
    pub closed spec fn wf_arrays(&self) -> bool {
        &&& self.children.len() == self.words@.len()
        &&& self.parents.len() == self.words@.len()
        &&& self.terminal.len() == self.words@.len()
    }

    /// An empty trie: the root alone.
    pub fn new() -> (r: VarNode)
        ensures
            r.wf(),
            r.spelled() == seq![Seq::<char>::empty()],
            r.patterns() == Set::<Seq<char>>::empty(),
    {
        let mut children: Vec<Vec<(char, usize)>> = Vec::new();
        children.push(Vec::new());
        let mut parents: Vec<usize> = Vec::new();
        parents.push(0);
        let mut terminal: Vec<bool> = Vec::new();
        terminal.push(false);
        let ghost w0 = seq![Seq::<char>::empty()];
        let r = VarNode {
            children,
            parents,
            terminal,
            words: Ghost(w0),
            pats: Ghost(Set::empty()),
        };
        assert(r.spelled()[0] == Seq::<char>::empty());
        r
    }

    /// The number of nodes.
    pub fn len(&self) -> (r: usize)
        requires
            self.wf(),
        ensures
            r == self.size(),
    {
        self.parents.len()
    }

    /// The child of node `i` on symbol `c`, if there is one.
    pub fn child(&self, i: usize, c: char) -> (r: Option<usize>)
        requires
            self.wf(),
            i < self.size(),
        ensures
            match r {
                Some(j) => j < self.size() && self.spelled()[j as int] == self.spelled()[i as int].push(c),
                None => !self.nodes().contains(self.spelled()[i as int].push(c)),
            },
    {
        let e = &self.children[i];
        assert(self.edges_wf(i as int));
        let mut k: usize = 0;
        while k < e.len()
            invariant
                self.wf(),
                i < self.size(),
                e@ == self.edges(i as int),
                k <= e@.len(),
                forall|m: int| 0 <= m < k ==> (#[trigger] e@[m]).0 != c,
            decreases e@.len() - k,
        {
            if e[k].0 == c {
                assert(self.edges_wf(i as int));
                assert(self.edges(i as int)[k as int] == e@[k as int]);
                return Some(e[k].1);
            }
            k = k + 1;
        }
        proof {
            let w = self.spelled();
            if self.nodes().contains(w[i as int].push(c)) {
                let j = choose|j: int| 0 <= j < w.len() && w[j] == w[i as int].push(c);
                assert(w[j].drop_last() =~= w[i as int]);
                assert(j != 0);
                assert(self.parent_wf(j));
                let p = self.parent_of(j);
                assert(p == i);
                let m = choose|m: int| 0 <= m < self.edges(p).len() && #[trigger] self.edges(p)[m] == (w[j].last(), j as usize);
                assert(e@[m].0 == c);
            }
        }
        None
    }

    /// Appends a new node spelling `w[parent].push(c)` below `parent`.
    fn add_child(&mut self, parent: usize, c: char) -> (r: usize)
        requires
            old(self).wf(),
            parent < old(self).size(),
            old(self).size() + 1 < usize::MAX,
            !old(self).nodes().contains(old(self).spelled()[parent as int].push(c)),
        ensures
            final(self).wf(),
            r == old(self).size(),
            final(self).spelled() == old(self).spelled().push(old(self).spelled()[parent as int].push(c)),
            final(self).patterns() == old(self).patterns(),
            forall|i: int| 0 <= i < old(self).size() ==> final(self).terminal_at(i) == old(self).terminal_at(i),
    {
        let ghost old_self = *self;
        let ghost w0 = self.words@;
        let ghost nw = w0[parent as int].push(c);
        let n = self.parents.len();
        self.children.push(Vec::new());
        self.parents.push(parent);
        self.terminal.push(false);
        self.children[parent].push((c, n));
        self.words = Ghost(w0.push(nw));
        proof {
            let w = self.words@;
            assert(w[n as int] == nw);
            assert forall|i: int| 0 <= i < self.size() implies #[trigger] self.edges_wf(i) by {
                if i < n {
                    assert(old_self.edges_wf(i));
                    if i == parent {
                        assert(self.edges(i) == old_self.edges(i).push((c, n)));
                        assert forall|k1: int, k2: int|
                            0 <= k1 < self.edges(i).len() && 0 <= k2 < self.edges(i).len() && k1 != k2
                            implies (#[trigger] self.edges(i)[k1]).0 != (#[trigger] self.edges(i)[k2]).0 by {
                            if k1 == n as int || k2 == n as int {
                            }
                            let e = self.edges(i);
                            if k1 < old_self.edges(i).len() && k2 < old_self.edges(i).len() {
                                assert(old_self.edges(i)[k1] == e[k1]);
                                assert(old_self.edges(i)[k2] == e[k2]);
                            } else if k1 < old_self.edges(i).len() {
                                let j = e[k1].1 as int;
                                assert(old_self.edges(i)[k1] == e[k1]);
                                assert(w0[j] == w0[i].push(e[k1].0));
                                assert(w0.contains(w0[j]));
                            } else {
                                let j = e[k2].1 as int;
                                assert(old_self.edges(i)[k2] == e[k2]);
                                assert(w0[j] == w0[i].push(e[k2].0));
                                assert(w0.contains(w0[j]));
                            }
                        }
                        assert forall|k: int| 0 <= k < self.edges(i).len() implies (#[trigger] self.edges(i)[k]).1 < self.size()
                            && w[self.edges(i)[k].1 as int] == w[i].push(self.edges(i)[k].0) by {
                            if k < old_self.edges(i).len() {
                                assert(old_self.edges(i)[k] == self.edges(i)[k]);
                            }
                        }
                    } else {
                        assert(self.edges(i) == old_self.edges(i));
                        assert forall|k: int| 0 <= k < self.edges(i).len() implies (#[trigger] self.edges(i)[k]).1 < self.size()
                            && w[self.edges(i)[k].1 as int] == w[i].push(self.edges(i)[k].0) by {
                            assert(old_self.edges(i)[k] == self.edges(i)[k]);
                        }
                    }
                } else {
                    assert(self.edges(i).len() == 0);
                }
            }
            assert forall|j: int| 0 < j < self.size() implies #[trigger] self.parent_wf(j) by {
                if j < n {
                    assert(old_self.parent_wf(j));
                    let p = old_self.parent_of(j);
                    assert(self.parent_of(j) == p);
                    let k = choose|k: int| 0 <= k < old_self.edges(p).len() && #[trigger] old_self.edges(p)[k] == (w0[j].last(), j as usize);
                    assert(self.edges(p)[k] == old_self.edges(p)[k]);
                } else {
                    assert(nw.drop_last() =~= w0[parent as int]);
                    assert(nw.last() == c);
                    assert(self.edges(parent as int)[old_self.edges(parent as int).len() as int] == (c, n));
                }
            }
            assert forall|i: int, j: int|
                0 <= i < self.size() && 0 <= j < self.size() && i != j implies #[trigger] w[i] != #[trigger] w[j] by {
                if i == n {
                    assert(w0.contains(w0[j]));
                } else if j == n {
                    assert(w0.contains(w0[i]));
                }
            }
            assert forall|i: int| 0 <= i < self.size() implies #[trigger] self.terminal_at(i) == self.patterns().contains(w[i]) by {
                if i == n {
                    if self.patterns().contains(nw) {
                        assert(old_self.patterns().contains(nw));
                    }
                } else {
                    assert(old_self.terminal_at(i) == old_self.patterns().contains(w0[i]));
                }
            }
            assert forall|s: Seq<char>| #[trigger] self.patterns().contains(s) implies w.contains(s) by {
                assert(old_self.patterns().contains(s));
                assert(w0.contains(s));
                let i = choose|i: int| 0 <= i < w0.len() && w0[i] == s;
                assert(w[i] == s);
            }
        }
        n
    }

    /// Inserts the pattern `s`: walks down from the root, creating each missing
    /// node, and marks the last node as the end of a pattern. The empty pattern
    /// changes nothing.
    pub fn push_str(&mut self, s: &str)
        requires
            old(self).wf(),
            old(self).size() + s@.len() < usize::MAX,
        ensures
            final(self).wf(),
            final(self).spelled() == with_word(old(self).spelled(), s@),
            final(self).patterns() == with_pattern(old(self).patterns(), s@),
            old(self).patterns().contains(s@) ==> final(self).spelled() == old(self).spelled()
                && final(self).patterns() == old(self).patterns(),
    {
        proof {
            if self.patterns().contains(s@) {
                self.lemma_pattern_prefixes(s@);
                lemma_grown_stable(self.spelled(), s@, s@.len());
                assert(self.patterns().insert(s@) =~= self.patterns());
            }
        }
        let cs = chars_of(s);
        if cs.len() == 0 {
            assert(self.patterns() == with_pattern(old(self).patterns(), s@));
            return;
        }
        let mut cur: usize = 0;
        let mut k: usize = 0;
        assert(s@.take(0) =~= Seq::<char>::empty());
        while k < cs.len()
            invariant
                self.wf(),
                cs@ == s@,
                k <= cs.len(),
                cur < self.size(),
                self.spelled()[cur as int] == s@.take(k as int),
                self.spelled() == grown(old(self).spelled(), s@, k as nat),
                self.patterns() == old(self).patterns(),
                self.size() <= old(self).size() + k,
                old(self).size() + s@.len() < usize::MAX,
            decreases cs.len() - k,
        {
            let c = cs[k];
            assert(s@.take(k as int).push(c) =~= s@.take(k + 1));
            match self.child(cur, c) {
                Some(j) => {
                    assert(self.spelled().contains(s@.take(k + 1)));
                    cur = j;
                },
                None => {
                    cur = self.add_child(cur, c);
                },
            }
            k = k + 1;
        }
        let ghost before = *self;
        self.terminal.set(cur, true);
        self.pats = Ghost(self.pats@.insert(s@));
        proof {
            let w = self.spelled();
            assert(s@.take(s@.len() as int) =~= s@);
            assert forall|i: int| 0 <= i < self.size() implies #[trigger] self.edges_wf(i) by {
                assert(before.edges_wf(i));
                assert(self.edges(i) == before.edges(i));
            }
            assert forall|j: int| 0 < j < self.size() implies #[trigger] self.parent_wf(j) by {
                assert(before.parent_wf(j));
                assert(self.parent_of(j) == before.parent_of(j));
                assert(self.edges(before.parent_of(j)) == before.edges(before.parent_of(j)));
            }
            assert forall|i: int| 0 <= i < self.size() implies #[trigger] self.terminal_at(i) == self.patterns().contains(w[i]) by {
                if i != cur {
                    assert(before.terminal_at(i) == before.patterns().contains(w[i]));
                }
            }
            assert forall|t: Seq<char>| #[trigger] self.patterns().contains(t) implies w.contains(t) by {
                if t != s@ {
                    assert(before.patterns().contains(t));
                } else {
                    assert(w[cur as int] == t);
                }
            }
        }
    }

    /// The node spelling `s`, if there is one.
    pub fn locate(&self, s: &str) -> (r: Option<usize>)
        requires
            self.wf(),
        ensures
            match r {
                Some(i) => i < self.size() && self.spelled()[i as int] == s@,
                None => !self.nodes().contains(s@),
            },
    {
        let cs = chars_of(s);
        let mut cur: usize = 0;
        let mut k: usize = 0;
        assert(s@.take(0) =~= Seq::<char>::empty());
        while k < cs.len()
            invariant
                self.wf(),
                cs@ == s@,
                k <= cs.len(),
                cur < self.size(),
                self.spelled()[cur as int] == s@.take(k as int),
            decreases cs.len() - k,
        {
            let c = cs[k];
            assert(s@.take(k as int).push(c) =~= s@.take(k + 1));
            match self.child(cur, c) {
                Some(j) => {
                    cur = j;
                },
                None => {
                    proof {
                        if self.nodes().contains(s@) {
                            let w = self.spelled();
                            let i = choose|i: int| 0 <= i < w.len() && w[i] == s@;
                            self.lemma_prefix_closed(i, k + 1);
                        }
                    }
                    return None;
                },
            }
            k = k + 1;
        }
        assert(s@.take(s@.len() as int) =~= s@);
        Some(cur)
    }

    /// Every prefix of a word that some node spells is spelled by a node too.
    pub proof fn lemma_prefix_closed(&self, i: int, m: int)
        requires
            self.wf(),
            0 <= i < self.size(),
            0 <= m <= self.spelled()[i].len(),
        ensures
            self.nodes().contains(self.spelled()[i].take(m)),
        decreases self.spelled()[i].len() - m,
    {
        let w = self.spelled();
        if m == w[i].len() {
            assert(w[i].take(m) =~= w[i]);
        } else {
            assert(i != 0);
            assert(self.parent_wf(i));
            let p = self.parent_of(i);
            assert(w[p].len() == w[i].len() - 1);
            self.lemma_prefix_closed(p, m);
            assert(w[p].take(m) =~= w[i].take(m));
        }
    }

    /// Whether `s` is an inserted pattern.
    pub fn pattern(&self, s: &str) -> (r: bool)
        requires
            self.wf(),
        ensures
            r == self.patterns().contains(s@),
    {
        match self.locate(s) {
            Some(i) => {
                assert(self.terminal_at(i as int) == self.patterns().contains(self.spelled()[i as int]));
                self.terminal[i]
            },
            None => {
                proof {
                    if self.patterns().contains(s@) {
                        assert(self.spelled().contains(s@));
                    }
                }
                false
            },
        }
    }

    /// Inserts each pattern of `vec` in turn.
    pub fn push_str_by_arr(&mut self, vec: Vec<&str>)
        requires
            old(self).wf(),
            old(self).size() + total_len(str_views(vec@)) < usize::MAX,
        ensures
            final(self).wf(),
            final(self).spelled() == with_words(old(self).spelled(), str_views(vec@)),
            final(self).patterns() == with_patterns(old(self).patterns(), str_views(vec@)),
    {
        let ghost ps = str_views(vec@);
        let mut i: usize = 0;
        while i < vec.len()
            invariant
                self.wf(),
                0 <= i <= vec.len(),
                ps == str_views(vec@),
                self.spelled() == with_words(old(self).spelled(), ps.take(i as int)),
                self.patterns() == with_patterns(old(self).patterns(), ps.take(i as int)),
                self.size() <= old(self).size() + total_len(ps.take(i as int)),
                old(self).size() + total_len(ps) < usize::MAX,
            decreases vec.len() - i,
        {
            proof {
                assert(ps.take(i + 1).drop_last() =~= ps.take(i as int));
                assert(ps.take(i + 1).last() == vec@[i as int]@);
                lemma_total_len_prefix(ps, i + 1);
                lemma_grown_contains(self.spelled(), vec@[i as int]@, vec@[i as int]@.len());
            }
            self.push_str(vec[i]);
            i = i + 1;
        }
        assert(ps.take(vec.len() as int) =~= ps);
    }

    /// Every nonempty prefix of an inserted pattern is spelled by a node.
    pub proof fn lemma_pattern_prefixes(&self, p: Seq<char>)
        requires
            self.wf(),
            self.patterns().contains(p),
        ensures
            forall|j: int| 1 <= j <= p.len() ==> #[trigger] self.spelled().contains(p.take(j)),
    {
        let w = self.spelled();
        assert(w.contains(p));
        let i = choose|i: int| 0 <= i < w.len() && w[i] == p;
        assert forall|j: int| 1 <= j <= p.len() implies #[trigger] w.contains(p.take(j)) by {
            self.lemma_prefix_closed(i, j);
        }
    }

    /// Every word spelled by a node has its parent word spelled too.
    pub proof fn lemma_drop_last_closed(&self, t: Seq<char>)
        requires
            self.wf(),
            self.nodes().contains(t),
            t.len() > 0,
        ensures
            self.nodes().contains(t.drop_last()),
    {
        let w = self.spelled();
        let i = choose|i: int| 0 <= i < w.len() && w[i] == t;
        self.lemma_prefix_closed(i, t.len() - 1);
        assert(t.take(t.len() - 1) =~= t.drop_last());
    }

    /// The root spells the empty word.
    pub proof fn lemma_root_empty(&self)
        requires
            self.wf(),
        ensures
            self.nodes().contains(Seq::<char>::empty()),
    {
        assert(self.spelled()[0] == Seq::<char>::empty());
    }

    /// Whether node `i` ends an inserted pattern.
    pub fn is_terminal(&self, i: usize) -> (r: bool)
        requires
            self.wf(),
            i < self.size(),
        ensures
            r == self.patterns().contains(self.spelled()[i as int]),
    {
        assert(self.terminal_at(i as int) == self.patterns().contains(self.spelled()[i as int]));
        self.terminal[i]
    }

    /// The parent of a non-root node.
    pub fn parent(&self, i: usize) -> (r: usize)
        requires
            self.wf(),
            0 < i < self.size(),
        ensures
            r < self.size(),
            self.spelled()[r as int] == self.spelled()[i as int].drop_last(),
    {
        assert(self.parent_wf(i as int));
        self.parents[i]
    }

    /// The outgoing edges of node `i`.
    pub fn edges_of(&self, i: usize) -> (r: &Vec<(char, usize)>)
        requires
            self.wf(),
            i < self.size(),
        ensures
            r@ == self.edges(i as int),
    {
        &self.children[i]
    }
}


/// A prefix of a list is no longer, in total, than the list.
pub proof fn lemma_total_len_prefix(ps: Seq<Seq<char>>, n: int)
    requires
        0 <= n <= ps.len(),
    ensures
        total_len(ps.take(n)) <= total_len(ps),
    decreases ps.len(),
{
    if n < ps.len() {
        assert(ps.drop_last().take(n) =~= ps.take(n));
        lemma_total_len_prefix(ps.drop_last(), n);
    } else {
        assert(ps.take(n) =~= ps);
    }
}

/// A place in a trie: the node reached so far, and the root.
pub struct AcManger {
    pub current_node: usize,
    pub head: usize,
}

} // verus!
