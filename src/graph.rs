use vstd::prelude::*;

verus! {

/// Every edge of `adj` points at a node of `adj`.
pub open spec fn adj_wf(adj: Seq<Seq<usize>>) -> bool {
    forall|x: int, j: int|
        0 <= x < adj.len() && 0 <= j < adj[x].len() ==> (#[trigger] adj[x][j]) < adj.len()
}

pub open spec fn adj_view(adj: &Vec<Vec<usize>>) -> Seq<Seq<usize>> {
    adj@.map_values(|v: Vec<usize>| v@)
}

/// Node `b` is one of `seeds`, or is reached from one of them in at most `n` edges.
pub open spec fn reach_within(adj: Seq<Seq<usize>>, seeds: Seq<usize>, b: usize, n: nat) -> bool
    decreases n,
{
    if n == 0 {
        exists|i: int| 0 <= i < seeds.len() && seeds[i] == b
    } else {
        reach_within(adj, seeds, b, (n - 1) as nat) || exists|m: usize|
            m < adj.len() && reach_within(adj, seeds, m, (n - 1) as nat) && adj[m as int].contains(b)
    }
}

/// Node `b` is one of `seeds` or is reached from one of them along edges of `adj`.
pub open spec fn reaches(adj: Seq<Seq<usize>>, seeds: Seq<usize>, b: usize) -> bool {
    exists|n: nat| reach_within(adj, seeds, b, n)
}

/// Number of `true` entries.
pub open spec fn count_true(s: Seq<bool>) -> nat
    decreases s.len(),
{
    if s.len() == 0 {
        0
    } else {
        count_true(s.drop_last()) + if s.last() {
            1nat
        } else {
            0nat
        }
    }
}

pub proof fn lemma_count_true_bound(s: Seq<bool>)
    ensures
        count_true(s) <= s.len(),
    decreases s.len(),
{
    if s.len() > 0 {
        lemma_count_true_bound(s.drop_last());
    }
}

proof fn lemma_count_true_set(s: Seq<bool>, i: int)
    requires
        0 <= i < s.len(),
        !s[i],
    ensures
        count_true(s.update(i, true)) == count_true(s) + 1,
    decreases s.len(),
{
    let t = s.update(i, true);
    if i < s.len() - 1 {
        assert(t.drop_last() =~= s.drop_last().update(i, true));
        lemma_count_true_set(s.drop_last(), i);
    } else {
        assert(t.drop_last() =~= s.drop_last());
    }
}

proof fn lemma_closed_marks_complete(adj: Seq<Seq<usize>>, seeds: Seq<usize>, mark: Seq<bool>, b: usize, n: nat)
    requires
        mark.len() == adj.len(),
        adj_wf(adj),
        forall|i: int| 0 <= i < seeds.len() ==> #[trigger] mark[seeds[i] as int],
        forall|x: int, j: int|
            0 <= x < adj.len() && mark[x] && 0 <= j < adj[x].len() ==> mark[#[trigger] adj[x][j] as int],
        b < adj.len(),
        reach_within(adj, seeds, b, n),
    ensures
        mark[b as int],
    decreases n,
{
    if n > 0 {
        if reach_within(adj, seeds, b, (n - 1) as nat) {
            lemma_closed_marks_complete(adj, seeds, mark, b, (n - 1) as nat);
        } else {
            let m = choose|m: usize|
                m < adj.len() && reach_within(adj, seeds, m, (n - 1) as nat) && adj[m as int].contains(b);
            lemma_closed_marks_complete(adj, seeds, mark, m, (n - 1) as nat);
            let j = choose|j: int| 0 <= j < adj[m as int].len() && adj[m as int][j] == b;
            assert(mark[adj[m as int][j] as int]);
        }
    } else {
        let i = choose|i: int| 0 <= i < seeds.len() && seeds[i] == b;
        assert(mark[seeds[i] as int]);
    }
}

/// Marks every node that is one of `seeds` or is reached from one of them.
///
/// Terminates on any graph, cycles included: a node is marked at most once.
pub fn closure(adj: &Vec<Vec<usize>>, seeds: &Vec<usize>) -> (r: Vec<bool>)
    requires
        adj_wf(adj_view(adj)),
        forall|i: int| 0 <= i < seeds@.len() ==> #[trigger] seeds@[i] < adj@.len(),
    ensures
        r@.len() == adj@.len(),
        forall|b: usize| b < adj@.len() ==> (r@[b as int] <==> reaches(adj_view(adj), seeds@, b)),
{
    let ghost a = adj_view(adj);
    let n = adj.len();
    let mut mark: Vec<bool> = Vec::new();
    while mark.len() < n
        invariant
            mark@.len() <= n,
            forall|b: int| 0 <= b < mark@.len() ==> !mark@[b],
        decreases n - mark@.len(),
    {
        mark.push(false);
    }
    let mut s: usize = 0;
    while s < seeds.len()
        invariant
            n == adj@.len(),
            a == adj_view(adj),
            mark@.len() == n,
            s <= seeds@.len(),
            forall|i: int| 0 <= i < seeds@.len() ==> #[trigger] seeds@[i] < n,
            forall|i: int| 0 <= i < s ==> #[trigger] mark@[seeds@[i] as int],
            forall|b: usize| b < n && #[trigger] mark@[b as int] ==> reaches(a, seeds@, b),
        decreases seeds@.len() - s,
    {
        let x = seeds[s];
        assert(reach_within(a, seeds@, x, 0));
        mark.set(x, true);
        s = s + 1;
    }
    loop
        invariant
            n == adj@.len(),
            a == adj_view(adj),
            adj_wf(a),
            mark@.len() == n,
            forall|i: int| 0 <= i < seeds@.len() ==> #[trigger] seeds@[i] < n,
            forall|i: int| 0 <= i < seeds@.len() ==> #[trigger] mark@[seeds@[i] as int],
            forall|b: usize| b < n && #[trigger] mark@[b as int] ==> reaches(a, seeds@, b),
        decreases n - count_true(mark@),
    {
        let ghost start = mark@;
        let mut changed = false;
        let mut x: usize = 0;
        proof {
            lemma_count_true_bound(mark@);
        }
        while x < n
            invariant
                n == adj@.len(),
                a == adj_view(adj),
                adj_wf(a),
                mark@.len() == n,
                x <= n,
                forall|i: int| 0 <= i < seeds@.len() ==> #[trigger] seeds@[i] < n,
                forall|i: int| 0 <= i < seeds@.len() ==> #[trigger] mark@[seeds@[i] as int],
                forall|b: usize| b < n && #[trigger] mark@[b as int] ==> reaches(a, seeds@, b),
                count_true(mark@) >= count_true(start),
                changed ==> count_true(mark@) > count_true(start),
                !changed ==> mark@ == start,
                !changed ==> forall|x0: int, j: int|
                    0 <= x0 < x && mark@[x0] && 0 <= j < a[x0].len() ==> mark@[#[trigger] a[x0][j] as int],
            decreases n - x,
        {
            if mark[x] {
                let edges = &adj[x];
                assert(edges@ == a[x as int]);
                let mut j: usize = 0;
                while j < edges.len()
                    invariant
                        n == adj@.len(),
                        a == adj_view(adj),
                        adj_wf(a),
                        edges@ == a[x as int],
                        x < n,
                        mark@.len() == n,
                        mark@[x as int],
                        j <= edges@.len(),
                        forall|i: int| 0 <= i < seeds@.len() ==> #[trigger] seeds@[i] < n,
                        forall|i: int| 0 <= i < seeds@.len() ==> #[trigger] mark@[seeds@[i] as int],
                        forall|b: usize| b < n && #[trigger] mark@[b as int] ==> reaches(a, seeds@, b),
                        count_true(mark@) >= count_true(start),
                        changed ==> count_true(mark@) > count_true(start),
                        !changed ==> mark@ == start,
                        !changed ==> forall|x0: int, j0: int|
                            0 <= x0 < x && mark@[x0] && 0 <= j0 < a[x0].len() ==> mark@[#[trigger] a[x0][j0] as int],
                        forall|j0: int| 0 <= j0 < j ==> mark@[#[trigger] edges@[j0] as int],
                    decreases edges@.len() - j,
                {
                    let y = edges[j];
                    assert(y == a[x as int][j as int]);
                    if !mark[y] {
                        proof {
                            let k = choose|k: nat| reach_within(a, seeds@, x, k);
                            assert(a[x as int].contains(y));
                            assert(reach_within(a, seeds@, y, k + 1));
                            lemma_count_true_set(mark@, y as int);
                        }
                        mark.set(y, true);
                        changed = true;
                    }
                    j = j + 1;
                }
            }
            x = x + 1;
        }
        if !changed {
            proof {
                assert forall|b: usize| b < n && reaches(a, seeds@, b) implies mark@[b as int] by {
                    let k = choose|k: nat| reach_within(a, seeds@, b, k);
                    lemma_closed_marks_complete(a, seeds@, mark@, b, k);
                }
            }
            return mark;
        }
        proof {
            lemma_count_true_bound(mark@);
        }
    }
}

/// Number of marked nodes.
pub fn count_marked(mark: &Vec<bool>) -> (r: usize)
    ensures
        r == count_true(mark@),
{
    let mut c: usize = 0;
    let mut i: usize = 0;
    while i < mark.len()
        invariant
            i <= mark@.len(),
            c == count_true(mark@.subrange(0, i as int)),
            c <= i,
        decreases mark@.len() - i,
    {
        assert(mark@.subrange(0, i + 1).drop_last() =~= mark@.subrange(0, i as int));
        if mark[i] {
            c = c + 1;
        }
        i = i + 1;
    }
    assert(mark@.subrange(0, i as int) =~= mark@);
    c
}

/// What is reached from `s1` with one more seed is reached from `s1` or from that seed.
pub proof fn lemma_reach_split(adj: Seq<Seq<usize>>, s1: Seq<usize>, y: usize, x: usize, k: nat)
    requires
        reach_within(adj, s1.push(y), x, k),
    ensures
        reaches(adj, s1, x) || reaches(adj, seq![y], x),
    decreases k,
{
    if k == 0 {
        let i = choose|i: int| 0 <= i < s1.push(y).len() && s1.push(y)[i] == x;
        if i < s1.len() {
            assert(s1[i] == x);
            assert(reach_within(adj, s1, x, 0));
        } else {
            assert(seq![y][0] == x);
            assert(reach_within(adj, seq![y], x, 0));
        }
    } else if reach_within(adj, s1.push(y), x, (k - 1) as nat) {
        lemma_reach_split(adj, s1, y, x, (k - 1) as nat);
    } else {
        let m = choose|m: usize|
            m < adj.len() && reach_within(adj, s1.push(y), m, (k - 1) as nat) && adj[m as int].contains(x);
        lemma_reach_split(adj, s1, y, m, (k - 1) as nat);
        if reaches(adj, s1, m) {
            lemma_reach_step(adj, s1, m, x);
        } else {
            lemma_reach_step(adj, seq![y], m, x);
        }
    }
}

/// One more edge after a reached node reaches its end.
pub proof fn lemma_reach_step(adj: Seq<Seq<usize>>, s: Seq<usize>, m: usize, x: usize)
    requires
        reaches(adj, s, m),
        m < adj.len(),
        adj[m as int].contains(x),
    ensures
        reaches(adj, s, x),
{
    let k = choose|k: nat| reach_within(adj, s, m, k);
    assert(reach_within(adj, s, x, k + 1));
}

/// Reachability is transitive: from what `s` reaches, through `x`'s own edges.
pub proof fn lemma_reach_trans(adj: Seq<Seq<usize>>, s: Seq<usize>, x: usize, y: usize, k: nat)
    requires
        reaches(adj, s, x),
        x < adj.len(),
        adj_wf(adj),
        reach_within(adj, adj[x as int], y, k),
    ensures
        reaches(adj, s, y),
    decreases k,
{
    if k == 0 {
        let i = choose|i: int| 0 <= i < adj[x as int].len() && adj[x as int][i] == y;
        assert(adj[x as int].contains(y));
        lemma_reach_step(adj, s, x, y);
    } else if reach_within(adj, adj[x as int], y, (k - 1) as nat) {
        lemma_reach_trans(adj, s, x, y, (k - 1) as nat);
    } else {
        let m = choose|m: usize|
            m < adj.len() && reach_within(adj, adj[x as int], m, (k - 1) as nat) && adj[m as int].contains(y);
        lemma_reach_trans(adj, s, x, m, (k - 1) as nat);
        lemma_reach_step(adj, s, m, y);
    }
}

/// Every `true` of `a` is a `true` of `b`, and `b` has one more: `b` counts more.
pub proof fn lemma_count_true_strict(a: Seq<bool>, b: Seq<bool>, w: int)
    requires
        a.len() == b.len(),
        forall|i: int| 0 <= i < a.len() && a[i] ==> b[i],
        0 <= w < a.len(),
        !a[w],
        b[w],
    ensures
        count_true(a) < count_true(b),
    decreases a.len(),
{
    lemma_count_true_mono(a.drop_last(), b.drop_last());
    if w < a.len() - 1 {
        lemma_count_true_strict(a.drop_last(), b.drop_last(), w);
    }
}

pub proof fn lemma_count_true_mono(a: Seq<bool>, b: Seq<bool>)
    requires
        a.len() == b.len(),
        forall|i: int| 0 <= i < a.len() && a[i] ==> b[i],
    ensures
        count_true(a) <= count_true(b),
    decreases a.len(),
{
    if a.len() > 0 {
        lemma_count_true_mono(a.drop_last(), b.drop_last());
    }
}

/// Appending a node that no edge leads to: from old seeds, only old nodes are
/// reached, and by old edges.
pub proof fn lemma_reach_new_node(adj: Seq<Seq<usize>>, e: Seq<usize>, s: Seq<usize>, x: usize, k: nat)
    requires
        adj_wf(adj),
        forall|i: int| 0 <= i < s.len() ==> #[trigger] s[i] < adj.len(),
        reach_within(adj.push(e), s, x, k),
    ensures
        x < adj.len(),
        reaches(adj, s, x),
    decreases k,
{
    let adj2 = adj.push(e);
    if k == 0 {
        let i = choose|i: int| 0 <= i < s.len() && s[i] == x;
        assert(reach_within(adj, s, x, 0));
    } else if reach_within(adj2, s, x, (k - 1) as nat) {
        lemma_reach_new_node(adj, e, s, x, (k - 1) as nat);
    } else {
        let m = choose|m: usize| m < adj2.len() && reach_within(adj2, s, m, (k - 1) as nat) && adj2[m as int].contains(x);
        lemma_reach_new_node(adj, e, s, m, (k - 1) as nat);
        assert(adj2[m as int] == adj[m as int]);
        let j = choose|j: int| 0 <= j < adj[m as int].len() && adj[m as int][j] == x;
        assert(adj[m as int][j] < adj.len());
        lemma_reach_step(adj, s, m, x);
    }
}

/// Adding the edge from `c` to `p`: what is reached now was reached before, or
/// `c` was reached before and the node is reached from `p`.
pub proof fn lemma_reach_new_edge(adj: Seq<Seq<usize>>, c: usize, p: usize, s: Seq<usize>, x: usize, k: nat)
    requires
        c < adj.len(),
        reach_within(adj.update(c as int, adj[c as int].push(p)), s, x, k),
    ensures
        reaches(adj, s, x) || (reaches(adj, s, c) && reaches(adj, seq![p], x)),
    decreases k,
{
    let adj2 = adj.update(c as int, adj[c as int].push(p));
    if k == 0 {
        let i = choose|i: int| 0 <= i < s.len() && s[i] == x;
        assert(reach_within(adj, s, x, 0));
    } else if reach_within(adj2, s, x, (k - 1) as nat) {
        lemma_reach_new_edge(adj, c, p, s, x, (k - 1) as nat);
    } else {
        let m = choose|m: usize| m < adj2.len() && reach_within(adj2, s, m, (k - 1) as nat) && adj2[m as int].contains(x);
        lemma_reach_new_edge(adj, c, p, s, m, (k - 1) as nat);
        let j = choose|j: int| 0 <= j < adj2[m as int].len() && adj2[m as int][j] == x;
        if m == c && j == adj[c as int].len() {
            assert(x == p);
            assert(seq![p][0] == p);
            assert(reach_within(adj, seq![p], x, 0));
            if !reaches(adj, s, c) {
                assert(reaches(adj, seq![p], m));
            }
        } else {
            assert(adj[m as int][j] == x);
            assert(adj[m as int].contains(x));
            if reaches(adj, s, m) {
                lemma_reach_step(adj, s, m, x);
            } else {
                lemma_reach_step(adj, seq![p], m, x);
            }
        }
    }
}

/// Nothing is reached from no seeds.
pub proof fn lemma_no_seeds(adj: Seq<Seq<usize>>, x: usize, k: nat)
    ensures
        !reach_within(adj, Seq::<usize>::empty(), x, k),
    decreases k,
{
    let e = Seq::<usize>::empty();
    if k == 0 {
        assert(!(exists|i: int| 0 <= i < e.len() && e[i] == x));
    } else {
        lemma_no_seeds(adj, x, (k - 1) as nat);
        if reach_within(adj, e, x, k) {
            let m = choose|m: usize|
                m < adj.len() && reach_within(adj, e, m, (k - 1) as nat) && adj[m as int].contains(x);
            lemma_no_seeds(adj, m, (k - 1) as nat);
        }
    }
}

} // verus!
