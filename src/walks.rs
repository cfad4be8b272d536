//! Walks along link lists, and the facts about them that the breadth-first
//! searches rest on.
use vstd::prelude::*;
use vstd::set_lib::lemma_len_subset;

verus! {

/// `b` is a node whose link list holds `a`.
pub open spec fn listed_by(adj: Seq<Seq<u32>>, a: u32, b: u32) -> bool {
    (b as int) < adj.len() && adj[b as int].contains(a)
}

/// `p` follows the link lists: each entry is listed by the entry after it.
pub open spec fn is_walk(adj: Seq<Seq<u32>>, p: Seq<u32>) -> bool {
    forall|i: int| 0 <= i < p.len() - 1 ==> #[trigger] listed_by(adj, p[i], p[i + 1])
}

/// `p` is a walk of at least one step from `s` to `d`.
pub open spec fn walk_between(adj: Seq<Seq<u32>>, p: Seq<u32>, s: u32, d: u32) -> bool {
    &&& p.len() >= 2
    &&& p[0] == s
    &&& p[p.len() - 1] == d
    &&& is_walk(adj, p)
}

/// The nodes from which `d` is reached by a walk of one to `k` steps.
pub open spec fn within(adj: Seq<Seq<u32>>, d: u32, k: nat) -> Set<u32> {
    Set::new(|w: u32| exists|p: Seq<u32>| walk_between(adj, p, w, d) && p.len() <= k + 1)
}

/// Each member of `frontier` lists none but members of `seen`.
pub open spec fn closed_under(adj: Seq<Seq<u32>>, frontier: Set<u32>, seen: Set<u32>) -> bool {
    forall|x: u32, w: u32|
        #[trigger] frontier.contains(x) && #[trigger] adj[x as int].contains(w) ==> seen.contains(w)
}

/// The nodes below `n`.
pub open spec fn below(n: nat) -> Set<u32> {
    Set::new(|x: u32| (x as nat) < n)
}

pub proof fn lemma_below(n: nat)
    requires
        n <= u32::MAX,
    ensures
        below(n).finite(),
        below(n).len() == n,
    decreases n,
{
    if n == 0 {
        assert(below(0) =~= Set::<u32>::empty());
    } else {
        lemma_below((n - 1) as nat);
        assert(below(n) =~= below((n - 1) as nat).insert((n - 1) as u32));
    }
}

/// A set of nodes below `n` is finite and has at most `n` members.
pub proof fn lemma_bounded_set(s: Set<u32>, n: nat)
    requires
        n <= u32::MAX,
        forall|x: u32| s.contains(x) ==> (x as nat) < n,
    ensures
        s.finite(),
        s.len() <= n,
{
    lemma_below(n);
    lemma_len_subset(s, below(n));
}

/// A walk of one step: `x` is listed by `d`.
pub proof fn lemma_within_one(adj: Seq<Seq<u32>>, d: u32, x: u32)
    requires
        (d as int) < adj.len(),
        adj[d as int].contains(x),
    ensures
        within(adj, d, 1).contains(x),
{
    let p = seq![x, d];
    assert(listed_by(adj, p[0], p[1]));
    assert(walk_between(adj, p, x, d));
}

/// No node reaches `d` in zero steps.
pub proof fn lemma_within_zero(adj: Seq<Seq<u32>>, d: u32)
    ensures
        within(adj, d, 0) =~= Set::<u32>::empty(),
{
}

/// Fewer steps reach no more nodes.
pub proof fn lemma_within_monotone(adj: Seq<Seq<u32>>, d: u32, j: nat, k: nat)
    requires
        j <= k,
    ensures
        within(adj, d, j).subset_of(within(adj, d, k)),
{
}

/// What reaches `d` in one step with `u`, which reaches it within `k`,
/// reaches it within `k + 1`.
pub proof fn lemma_within_extend(adj: Seq<Seq<u32>>, d: u32, k: nat, u: u32, x: u32)
    requires
        within(adj, d, k).contains(u),
        (u as int) < adj.len(),
        adj[u as int].contains(x),
    ensures
        within(adj, d, k + 1).contains(x),
{
    let p = choose|p: Seq<u32>| walk_between(adj, p, u, d) && p.len() <= k + 1;
    let q = seq![x] + p;
    assert forall|i: int| 0 <= i < q.len() - 1 implies #[trigger] listed_by(adj, q[i], q[i + 1]) by {
        if i > 0 {
            let j = i - 1;
            assert(q[i] == p[j] && q[i + 1] == p[j + 1]);
            assert(listed_by(adj, p[j], p[j + 1]));
        }
    }
    assert(walk_between(adj, q, x, d));
}

/// A node that reaches `d` within `k + 1` steps reaches it within `k`, or is
/// listed by a node that does.
pub proof fn lemma_within_step(adj: Seq<Seq<u32>>, d: u32, k: nat, w: u32)
    requires
        k >= 1,
        within(adj, d, k + 1).contains(w),
    ensures
        within(adj, d, k).contains(w) || exists|x: u32|
            #[trigger] within(adj, d, k).contains(x) && (x as int) < adj.len() && adj[x as int].contains(
                w,
            ),
{
    let p = choose|p: Seq<u32>| walk_between(adj, p, w, d) && p.len() <= k + 2;
    if p.len() <= k + 1 {
    } else {
        let q = p.subrange(1, p.len() as int);
        assert forall|i: int| 0 <= i < q.len() - 1 implies #[trigger] listed_by(adj, q[i], q[i + 1]) by {
            assert(q[i] == p[i + 1] && q[i + 1] == p[i + 2]);
            assert(listed_by(adj, p[i + 1], p[i + 2]));
        }
        assert(walk_between(adj, q, p[1], d));
        let z: int = 0;
        assert(listed_by(adj, p[z], p[z + 1]));
        assert(within(adj, d, k).contains(p[1]));
    }
}

/// A set that holds what `d` lists and is closed under the link lists holds
/// every node that reaches `d`.
pub proof fn lemma_closed_holds_within(adj: Seq<Seq<u32>>, d: u32, seen: Set<u32>, k: nat)
    requires
        (d as int) < adj.len(),
        forall|x: u32| adj[d as int].contains(x) ==> seen.contains(x),
        closed_under(adj, seen, seen),
    ensures
        within(adj, d, k).subset_of(seen),
    decreases k,
{
    if k <= 1 {
        assert forall|w: u32| within(adj, d, k).contains(w) implies seen.contains(w) by {
            let p = choose|p: Seq<u32>| walk_between(adj, p, w, d) && p.len() <= k + 1;
            let i: int = 0;
            assert(listed_by(adj, p[i], p[i + 1]));
        }
    } else {
        let j = (k - 1) as nat;
        lemma_closed_holds_within(adj, d, seen, j);
        assert forall|w: u32| within(adj, d, k).contains(w) implies seen.contains(w) by {
            lemma_within_step(adj, d, j, w);
            if !within(adj, d, j).contains(w) {
                let x = choose|x: u32|
                    #[trigger] within(adj, d, j).contains(x) && (x as int) < adj.len()
                        && adj[x as int].contains(w);
                assert(seen.contains(x));
            }
        }
    }
}

/// What a sequence with one more value appended contains.
pub proof fn lemma_push_fresh_contains(s: Seq<u32>, v: u32)
    ensures
        forall|x: u32| s.push(v).contains(x) <==> (s.contains(x) || x == v),
{
    assert forall|x: u32| s.push(v).contains(x) <==> (s.contains(x) || x == v) by {
        if s.push(v).contains(x) {
            let k = choose|k: int| 0 <= k < s.push(v).len() && s.push(v)[k] == x;
            if k < s.len() {
                assert(s[k] == x);
            }
        }
        if s.contains(x) {
            let k = choose|k: int| 0 <= k < s.len() && s[k] == x;
            assert(s.push(v)[k] == x);
        }
        if x == v {
            assert(s.push(v)[s.len() as int] == x);
        }
    }
}

/// Appending a value that is not yet present keeps a sequence free of repeats.
pub proof fn lemma_push_fresh(s: Seq<u32>, v: u32)
    requires
        s.no_duplicates(),
        !s.contains(v),
    ensures
        s.push(v).no_duplicates(),
        forall|x: u32| s.push(v).contains(x) <==> (s.contains(x) || x == v),
{
    lemma_push_fresh_contains(s, v);
}

/// A walk from `s` to `d` that is at most `k + 1` long puts `s` within `k`.
pub proof fn lemma_walk_within(adj: Seq<Seq<u32>>, p: Seq<u32>, s: u32, d: u32, k: nat)
    requires
        walk_between(adj, p, s, d),
        p.len() <= k + 1,
    ensures
        within(adj, d, k).contains(s),
{
}


/// `e` leads back from `d`: its first entry is listed by `d`, and each later
/// entry by the one before it.
pub open spec fn is_chain(adj: Seq<Seq<u32>>, e: Seq<u32>, d: u32) -> bool {
    &&& e.len() >= 1
    &&& listed_by(adj, e[0], d)
    &&& forall|j: int| 0 <= j < e.len() - 1 ==> #[trigger] listed_by(adj, e[j + 1], e[j])
}

/// The chain `e` read backwards, ending at `d`: a walk from its last entry.
pub open spec fn rev_walk(e: Seq<u32>, d: u32) -> Seq<u32> {
    Seq::new((e.len() + 1) as nat, |i: int| if i < e.len() { e[e.len() - 1 - i] } else { d })
}

pub proof fn lemma_chain_walk(adj: Seq<Seq<u32>>, e: Seq<u32>, d: u32)
    requires
        is_chain(adj, e, d),
    ensures
        walk_between(adj, rev_walk(e, d), e[e.len() - 1], d),
        rev_walk(e, d).len() == e.len() + 1,
        within(adj, d, e.len()).contains(e[e.len() - 1]),
{
    let w = rev_walk(e, d);
    assert forall|i: int| 0 <= i < w.len() - 1 implies #[trigger] listed_by(adj, w[i], w[i + 1]) by {
        if i + 1 < e.len() {
            let j = e.len() - 2 - i;
            assert(w[i] == e[j + 1] && w[i + 1] == e[j]);
        } else {
            assert(w[i] == e[0] && w[i + 1] == d);
        }
    }
    assert(w[0] == e[e.len() - 1]);
    assert(walk_between(adj, w, e[e.len() - 1], d));
}

/// Extending a chain by a node its last entry lists gives a chain.
pub proof fn lemma_chain_push(adj: Seq<Seq<u32>>, e: Seq<u32>, d: u32, w: u32)
    requires
        is_chain(adj, e, d),
        listed_by(adj, w, e[e.len() - 1]),
    ensures
        is_chain(adj, e.push(w), d),
{
    let f = e.push(w);
    assert forall|j: int| 0 <= j < f.len() - 1 implies #[trigger] listed_by(adj, f[j + 1], f[j]) by {
        if j + 1 < e.len() {
            assert(f[j + 1] == e[j + 1] && f[j] == e[j]);
        }
    }
}

/// A walk stays a walk with a node in front that its first entry lists.
pub proof fn lemma_walk_prepend(adj: Seq<Seq<u32>>, w: Seq<u32>, s: u32)
    requires
        is_walk(adj, w),
        w.len() >= 1,
        listed_by(adj, s, w[0]),
    ensures
        is_walk(adj, seq![s] + w),
{
    let q = seq![s] + w;
    assert forall|i: int| 0 <= i < q.len() - 1 implies #[trigger] listed_by(adj, q[i], q[i + 1]) by {
        if i > 0 {
            let j = i - 1;
            assert(q[i] == w[j] && q[i + 1] == w[j + 1]);
        }
    }
}

/// A walk of at least two steps from `s` to `d` starts with a node listed by
/// a node that reaches `d` within one step less.
pub proof fn lemma_long_walk_second(adj: Seq<Seq<u32>>, p: Seq<u32>, s: u32, d: u32)
    requires
        walk_between(adj, p, s, d),
        p.len() >= 3,
    ensures
        within(adj, d, (p.len() - 2) as nat).contains(p[1]),
        listed_by(adj, s, p[1]),
{
    let q = p.subrange(1, p.len() as int);
    assert forall|i: int| 0 <= i < q.len() - 1 implies #[trigger] listed_by(adj, q[i], q[i + 1]) by {
        assert(q[i] == p[i + 1] && q[i + 1] == p[i + 2]);
        assert(listed_by(adj, p[i + 1], p[(i + 1) + 1]));
    }
    assert(walk_between(adj, q, p[1], d));
    let z: int = 0;
    assert(listed_by(adj, p[z], p[z + 1]));
}

} // verus!
