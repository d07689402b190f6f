//! General facts about sequences used by the proofs.
use vstd::prelude::*;

use crate::spec::{has_edge, has_unseen_succ, is_walk, reach_within, reachable};

verus! {

/// A sequence without repetitions of numbers below `n` has at most `n` elements.
pub proof fn lemma_distinct_len_bound(s: Seq<usize>, n: nat)
    requires
        s.no_duplicates(),
        forall|i: int| 0 <= i < s.len() ==> #[trigger] s[i] < n,
    ensures
        s.len() <= n,
    decreases n,
{
    if n == 0 {
        if s.len() > 0 {
            assert(s[0] < 0);
        }
    } else {
        let top = (n - 1) as usize;
        if s.contains(top) {
            let k = choose|k: int| 0 <= k < s.len() && s[k] == top;
            let t = s.remove(k);
            assert forall|i: int| 0 <= i < t.len() implies #[trigger] t[i] < n - 1 by {
                if i < k {
                    assert(t[i] == s[i]);
                } else {
                    assert(t[i] == s[i + 1]);
                }
            }
            assert forall|i: int, j: int| 0 <= i < t.len() && 0 <= j < t.len() && i != j implies t[i] != t[j] by {
                let si = if i < k { i } else { i + 1 };
                let sj = if j < k { j } else { j + 1 };
                assert(t[i] == s[si]);
                assert(t[j] == s[sj]);
            }
            lemma_distinct_len_bound(t, (n - 1) as nat);
        } else {
            assert forall|i: int| 0 <= i < s.len() implies #[trigger] s[i] < n - 1 by {
                if s[i] == top {
                    assert(s.contains(top));
                }
            }
            lemma_distinct_len_bound(s, (n - 1) as nat);
        }
    }
}

/// What a prefix contains, the whole sequence contains.
pub proof fn lemma_prefix_contains(a: Seq<usize>, b: Seq<usize>, x: usize)
    requires
        a.is_prefix_of(b),
        a.contains(x),
    ensures
        b.contains(x),
{
    let i = choose|i: int| 0 <= i < a.len() && a[i] == x;
    assert(b[i] == a[i]);
}

/// A node whose successors were all seen stays so when more nodes are seen.
pub proof fn lemma_prefix_no_unseen(g: Seq<Seq<usize>>, a: Seq<usize>, b: Seq<usize>, u: int)
    requires
        a.is_prefix_of(b),
        !has_unseen_succ(g, a, u),
    ensures
        !has_unseen_succ(g, b, u),
{
    if 0 <= u < g.len() {
        assert forall|j: int| 0 <= j < g[u].len() implies b.contains(#[trigger] g[u][j]) by {
            assert(a.contains(g[u][j]));
            lemma_prefix_contains(a, b, g[u][j]);
        }
    }
}

/// A sequence that contains every number below `n` has at least `n` elements.
pub proof fn lemma_cover_len_bound(s: Seq<usize>, n: nat)
    requires
        n <= usize::MAX + 1,
        forall|x: usize| x < n ==> #[trigger] s.contains(x),
    ensures
        s.len() >= n,
    decreases n,
{
    if n > 0 {
        let top = (n - 1) as usize;
        assert(s.contains(top));
        let k = choose|k: int| 0 <= k < s.len() && s[k] == top;
        let t = s.remove(k);
        assert forall|x: usize| x < n - 1 implies #[trigger] t.contains(x) by {
            assert(s.contains(x));
            let i = choose|i: int| 0 <= i < s.len() && s[i] == x;
            if i < k {
                assert(t[i] == s[i]);
            } else {
                assert(i != k);
                assert(t[i - 1] == s[i]);
            }
        }
        lemma_cover_len_bound(t, (n - 1) as nat);
    }
}

/// What `s.push(x)` contains.
pub proof fn lemma_push_contains(s: Seq<usize>, x: usize, y: usize)
    ensures
        s.push(x).contains(y) <==> (s.contains(y) || y == x),
{
    if s.contains(y) {
        let i = choose|i: int| 0 <= i < s.len() && s[i] == y;
        assert(s.push(x)[i] == y);
    }
    if y == x {
        assert(s.push(x)[s.len() as int] == y);
    }
    if s.push(x).contains(y) && y != x {
        let i = choose|i: int| 0 <= i < s.len() + 1 && s.push(x)[i] == y;
        assert(s[i] == y);
    }
}

/// A sequence of `n` distinct numbers below `n` contains each of them.
pub proof fn lemma_missing_value(s: Seq<usize>, n: nat, x: usize)
    requires
        s.no_duplicates(),
        forall|i: int| 0 <= i < s.len() ==> #[trigger] s[i] < n,
        x < n,
        !s.contains(x),
    ensures
        s.len() < n,
{
    let t = s.map_values(|v: usize| if v > x { (v - 1) as usize } else { v });
    assert forall|i: int| 0 <= i < t.len() implies #[trigger] t[i] < n - 1 by {
        assert(s[i] != x);
    }
    assert forall|i: int, j: int| 0 <= i < t.len() && 0 <= j < t.len() && i != j implies t[i] != t[j] by {
        assert(s[i] != s[j]);
        assert(s[i] != x);
        assert(s[j] != x);
    }
    lemma_distinct_len_bound(t, (n - 1) as nat);
}

/// Every node reaches itself.
pub proof fn lemma_reach_refl(g: Seq<Seq<usize>>, x: int)
    ensures
        reachable(g, x, x),
{
    assert(reach_within(g, x, x, 0));
}

/// An edge is a path.
pub proof fn lemma_reach_edge(g: Seq<Seq<usize>>, x: int, y: int)
    requires
        has_edge(g, x, y),
    ensures
        reachable(g, x, y),
{
    assert(reach_within(g, x, x, 0));
    assert(reach_within(g, x, y, 1));
}

/// Paths compose.
pub proof fn lemma_reach_within_trans(g: Seq<Seq<usize>>, a: int, b: int, c: int, k1: nat, k2: nat)
    requires
        reach_within(g, a, b, k1),
        reach_within(g, b, c, k2),
    ensures
        reach_within(g, a, c, k1 + k2),
    decreases k2,
{
    if k2 > 0 {
        if reach_within(g, b, c, (k2 - 1) as nat) {
            lemma_reach_within_trans(g, a, b, c, k1, (k2 - 1) as nat);
        } else {
            let u = choose|u: int|
                #[trigger] has_edge(g, u, c) && reach_within(g, b, u, (k2 - 1) as nat);
            lemma_reach_within_trans(g, a, b, u, k1, (k2 - 1) as nat);
            assert(has_edge(g, u, c) && reach_within(g, a, u, (k1 + k2 - 1) as nat));
        }
    }
}

/// Reachability is transitive.
pub proof fn lemma_reach_trans(g: Seq<Seq<usize>>, a: int, b: int, c: int)
    requires
        reachable(g, a, b),
        reachable(g, b, c),
    ensures
        reachable(g, a, c),
{
    let k1 = choose|k: nat| reach_within(g, a, b, k);
    let k2 = choose|k: nat| reach_within(g, b, c, k);
    lemma_reach_within_trans(g, a, b, c, k1, k2);
}

/// A set of nodes that holds `s` and is closed under edges holds every node
/// reachable from `s`.
pub proof fn lemma_reach_closed(g: Seq<Seq<usize>>, s: int, p: spec_fn(int) -> bool, y: int, k: nat)
    requires
        p(s),
        forall|u: int, w: int| p(u) && #[trigger] has_edge(g, u, w) ==> p(w),
        reach_within(g, s, y, k),
    ensures
        p(y),
    decreases k,
{
    if k > 0 {
        if reach_within(g, s, y, (k - 1) as nat) {
            lemma_reach_closed(g, s, p, y, (k - 1) as nat);
        } else {
            let u = choose|u: int|
                #[trigger] has_edge(g, u, y) && reach_within(g, s, u, (k - 1) as nat);
            lemma_reach_closed(g, s, p, u, (k - 1) as nat);
        }
    }
}

/// An element of one of the sequences is an element of their concatenation.
pub proof fn lemma_flatten_member(ss: Seq<Seq<usize>>, k: int, a: int)
    requires
        0 <= k < ss.len(),
        0 <= a < ss[k].len(),
    ensures
        ss.flatten().contains(ss[k][a]),
    decreases ss.len(),
{
    if k == 0 {
        assert(ss.flatten() == ss[0] + ss.drop_first().flatten());
        assert(ss.flatten()[a] == ss[0][a]);
    } else {
        let rest = ss.drop_first();
        assert(rest[k - 1] == ss[k]);
        lemma_flatten_member(rest, k - 1, a);
        assert(ss.flatten() == ss[0] + rest.flatten());
        let i = choose|i: int| 0 <= i < rest.flatten().len() && rest.flatten()[i] == ss[k][a];
        assert(ss.flatten()[ss[0].len() + i] == ss[k][a]);
    }
}

/// The sequences of a concatenation without repetitions have none either.
pub proof fn lemma_flatten_part_distinct(ss: Seq<Seq<usize>>, k: int)
    requires
        0 <= k < ss.len(),
        ss.flatten().no_duplicates(),
    ensures
        ss[k].no_duplicates(),
{
    let front = ss.take(k);
    let back = ss.skip(k);
    assert(ss =~= front + back);
    vstd::seq_lib::lemma_flatten_concat(front, back);
    assert(back.flatten() == back[0] + back.drop_first().flatten());
    assert(back[0] == ss[k]);
    let base = front.flatten().len();
    assert forall|a: int, b: int| 0 <= a < ss[k].len() && 0 <= b < ss[k].len() && a != b implies ss[k][a]
        != ss[k][b] by {
        assert(ss.flatten()[base + a] == ss[k][a]);
        assert(ss.flatten()[base + b] == ss[k][b]);
    }
}

/// A node reached from `s` within `k` edges is the end of a walk from `s`.
pub proof fn lemma_reach_walk(g: Seq<Seq<usize>>, s: int, v: int, k: nat) -> (p: Seq<usize>)
    requires
        0 <= s <= usize::MAX,
        reach_within(g, s, v, k),
    ensures
        is_walk(g, p),
        p[0] == s,
        p.last() as int == v,
    decreases k,
{
    if k == 0 {
        seq![s as usize]
    } else if reach_within(g, s, v, (k - 1) as nat) {
        lemma_reach_walk(g, s, v, (k - 1) as nat)
    } else {
        let u = choose|u: int| #[trigger] has_edge(g, u, v) && reach_within(g, s, u, (k - 1) as nat);
        let q = lemma_reach_walk(g, s, u, (k - 1) as nat);
        let j = choose|j: int| 0 <= j < g[u].len() && g[u][j] == v;
        let p = q.push(g[u][j]);
        assert forall|i: int| 0 <= i < p.len() - 1 implies has_edge(g, #[trigger] p[i] as int, p[i + 1] as int) by {
            if i < q.len() - 1 {
                assert(has_edge(g, q[i] as int, q[i + 1] as int));
            }
        }
        p
    }
}

/// Concatenating one-element sequences lists their elements in order.
pub proof fn lemma_flatten_singletons(ss: Seq<Seq<usize>>)
    requires
        forall|k: int| 0 <= k < ss.len() ==> #[trigger] ss[k].len() == 1,
    ensures
        ss.flatten() =~= Seq::new(ss.len(), |k: int| ss[k][0]),
    decreases ss.len(),
{
    if ss.len() > 0 {
        let init = ss.drop_last();
        lemma_flatten_singletons(init);
        assert(ss =~= init.push(ss.last()));
        init.lemma_flatten_push(ss.last());
        assert(ss.last() =~= seq![ss.last()[0]]);
    }
}

} // verus!
