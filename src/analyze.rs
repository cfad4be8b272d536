//! Queries over a built link graph: link counts, and breadth-first searches
//! that walk the link lists from a destination back towards a start.
use crate::graph::{adjacency, all_strictly_ascending, strictly_ascending, lengths_fit, links_in_range, max_nodes, Article, NameIndex};
use crate::visited::VisitedSet;
use crate::walks::{
    closed_under, lemma_bounded_set, lemma_push_fresh, lemma_push_fresh_contains, lemma_closed_holds_within, lemma_walk_within, lemma_within_extend,
    lemma_within_monotone, lemma_within_one, lemma_within_step, lemma_within_zero, listed_by,
    walk_between, within, is_chain, rev_walk, lemma_chain_walk, lemma_chain_push,
    lemma_walk_prepend, lemma_long_walk_second, below, lemma_below,
};
use vstd::prelude::*;
use vstd::seq_lib::{to_multiset_contains, to_multiset_len};

verus! {

/// A link graph ready for analysis.
pub struct WikipediaAnalysis {
    /// Article name to node id, and back.
    pub article_map: NameIndex,
    /// The link list of each node, indexed by node id.
    pub articles: Vec<Article>,
}

/// `s` reaches `d` by a walk of `k` steps and by none shorter.
pub open spec fn shortest_steps(adj: Seq<Seq<u32>>, s: u32, d: u32, k: nat) -> bool {
    &&& k >= 1
    &&& within(adj, d, k).contains(s)
    &&& !within(adj, d, (k - 1) as nat).contains(s)
}

/// Some walk of at least two steps leads from `s` to `d`.
pub open spec fn reaches_through(adj: Seq<Seq<u32>>, s: u32, d: u32) -> bool {
    exists|p: Seq<u32>| walk_between(adj, p, s, d) && p.len() >= 3
}

/// `p` is a walk of at least two steps from `s` to `d`, and no such walk is
/// shorter.
pub open spec fn shortest_path(adj: Seq<Seq<u32>>, p: Seq<u32>, s: u32, d: u32) -> bool {
    &&& walk_between(adj, p, s, d)
    &&& p.len() >= 3
    &&& forall|q: Seq<u32>| walk_between(adj, q, s, d) && q.len() >= 3 ==> p.len() <= q.len()
}

/// How many of the first `upto` link lists have `c` entries.
pub open spec fn count_with_len(adj: Seq<Seq<u32>>, c: nat, upto: int) -> nat
    decreases upto,
{
    if upto <= 0 {
        0
    } else {
        count_with_len(adj, c, upto - 1) + if adj[upto - 1].len() == c {
            1nat
        } else {
            0nat
        }
    }
}

/// One more than the longest of the first `upto` link lists; zero for none.
pub open spec fn histogram_len(adj: Seq<Seq<u32>>, upto: int) -> nat
    decreases upto,
{
    if upto <= 0 {
        0
    } else {
        let before = histogram_len(adj, upto - 1);
        if adj[upto - 1].len() + 1 > before {
            adj[upto - 1].len() + 1
        } else {
            before
        }
    }
}

/// `r` lists node ids with their link counts, most links first, and holds
/// the `r.len()` nodes with the most links (which of several with equal
/// counts is left open).
pub open spec fn is_most_linked(adj: Seq<Seq<u32>>, r: Seq<(u32, u32)>) -> bool {
    &&& forall|i: int|
        0 <= i < r.len() ==> (r[i].0 as int) < adj.len() && r[i].1 as int == adj[r[i].0 as int].len()
    &&& forall|i: int, j: int| 0 <= i < j < r.len() ==> r[i].0 != r[j].0
    &&& forall|i: int, j: int| 0 <= i < j < r.len() ==> r[i].1 >= r[j].1
    &&& forall|i: int, u: u32|
        0 <= i < r.len() && (u as int) < adj.len() && !(exists|j: int|
            0 <= j < r.len() && #[trigger] r[j].0 == u) ==> adj[u as int].len() <= r[i].1
}

/// Relies on `slice::sort_unstable_by_key`: the entries are reordered so that
/// their second fields do not increase.
#[verifier::external_body]
fn sort_by_count_descending(v: &mut Vec<(u32, u32)>)
    ensures
        final(v)@.to_multiset() == old(v)@.to_multiset(),
        forall|i: int, j: int| 0 <= i < j < final(v)@.len() ==> final(v)@[i].1 >= final(v)@[j].1,
{
    v.sort_unstable_by_key(|p| std::cmp::Reverse(p.1));
}

/// The root together with every node of the first `k` groups.
pub open spec fn seen_before(root: u32, groups: Seq<Seq<u32>>, k: int) -> Set<u32> {
    Set::new(|x: u32| x == root || exists|j: int| 0 <= j < k && #[trigger] groups[j].contains(x))
}

/// The nodes outside `seen` that some member of `prev` lists.
pub open spec fn next_layer(adj: Seq<Seq<u32>>, seen: Set<u32>, prev: Seq<u32>) -> Set<u32> {
    Set::new(
        |v: u32|
            !seen.contains(v) && exists|i: int|
                0 <= i < prev.len() && #[trigger] adj[prev[i] as int].contains(v),
    )
}

/// The link lists of each group.
pub open spec fn groups_view(groups: Seq<Vec<u32>>) -> Seq<Seq<u32>> {
    groups.map_values(|g: Vec<u32>| g@)
}

/// `groups` are the breadth-first layers around `root`: the first is the link
/// list of `root`; each later one holds, once each, the nodes that the one
/// before lists and that neither `root` nor an earlier group holds. There are
/// as many as `limit` allows (at least one), fewer only where the next layer
/// would be empty.
pub open spec fn is_layering(adj: Seq<Seq<u32>>, root: u32, limit: nat, groups: Seq<Seq<u32>>) -> bool {
    &&& groups.len() >= 1
    &&& groups[0] == adj[root as int]
    &&& forall|k: int|
        1 <= k < groups.len() ==> (#[trigger] groups[k]).len() > 0 && groups[k].no_duplicates()
    &&& forall|k: int, x: u32|
        1 <= k < groups.len() ==> (#[trigger] groups[k].contains(x) <==> next_layer(
            adj,
            seen_before(root, groups, k),
            groups[k - 1],
        ).contains(x))
    &&& groups.len() <= if limit > 1 { limit } else { 1 }
    &&& groups.len() < limit ==> next_layer(
        adj,
        seen_before(root, groups, groups.len() as int),
        groups[groups.len() - 1],
    ) =~= Set::<u32>::empty()
}

/// Appending a group leaves what the earlier groups hold unchanged.
pub proof fn lemma_seen_before_push(root: u32, groups: Seq<Seq<u32>>, g: Seq<u32>, k: int)
    requires
        0 <= k <= groups.len(),
    ensures
        seen_before(root, groups.push(g), k) =~= seen_before(root, groups, k),
{
    assert forall|x: u32| seen_before(root, groups.push(g), k).contains(x) implies seen_before(root, groups, k).contains(x) by {
        if x != root {
            let j = choose|j: int| 0 <= j < k && #[trigger] groups.push(g)[j].contains(x);
            assert(groups[j].contains(x));
        }
    }
    assert forall|x: u32| seen_before(root, groups, k).contains(x) implies seen_before(root, groups.push(g), k).contains(x) by {
        if x != root {
            let j = choose|j: int| 0 <= j < k && #[trigger] groups[j].contains(x);
            assert(groups.push(g)[j].contains(x));
        }
    }
}

/// A copy of `e` with `w` appended.
fn extended(e: &Vec<u32>, w: u32) -> (r: Vec<u32>)
    ensures
        r@ == e@.push(w),
{
    let mut r: Vec<u32> = Vec::new();
    let mut i: usize = 0;
    while i < e.len()
        invariant
            i <= e@.len(),
            r@ == e@.subrange(0, i as int),
        decreases e@.len() - i,
    {
        r.push(e[i]);
        i = i + 1;
        assert(r@ =~= e@.subrange(0, i as int));
    }
    assert(e@.subrange(0, e@.len() as int) =~= e@);
    r.push(w);
    r
}

/// `start`, then the entries of `e` from last to first, then `dest`.
fn assemble_path(start: u32, e: &Vec<u32>, dest: u32) -> (r: Vec<u32>)
    ensures
        r@ == seq![start] + rev_walk(e@, dest),
{
    let mut r: Vec<u32> = Vec::new();
    r.push(start);
    let mut i: usize = e.len();
    while i > 0
        invariant
            i <= e@.len(),
            r@.len() == 1 + e@.len() - i,
            r@[0] == start,
            forall|k: int| 1 <= k < r@.len() ==> r@[k] == e@[e@.len() - k],
        decreases i,
    {
        i = i - 1;
        r.push(e[i]);
    }
    r.push(dest);
    assert(r@ =~= seq![start] + rev_walk(e@, dest));
    r
}

/// Some walk leads from `s` to `d`.
pub open spec fn reaches(adj: Seq<Seq<u32>>, s: u32, d: u32) -> bool {
    exists|p: Seq<u32>| walk_between(adj, p, s, d)
}

impl WikipediaAnalysis {
    /// The link lists, indexed by node id.
    pub open spec fn adj(&self) -> Seq<Seq<u32>> {
        adjacency(self.articles@)
    }

    /// One name per article, and every link names an article.
    pub open spec fn wf(&self) -> bool {
        &&& self.article_map.wf()
        &&& self.article_map@.len() == self.articles@.len()
        &&& self.articles@.len() <= max_nodes()
        &&& links_in_range(self.adj())
        &&& lengths_fit(self.adj())
    }

    /// Appends `default` to `vec` until `index` is a valid position in it.
    fn vec_initialise_up_to_index<T: Copy>(vec: &mut Vec<T>, index: usize, default: T)
        requires
            index < usize::MAX,
        ensures
            final(vec)@.len() == if index + 1 > old(vec)@.len() {
                index + 1
            } else {
                old(vec)@.len() as int
            },
            forall|i: int| 0 <= i < old(vec)@.len() ==> final(vec)@[i] == old(vec)@[i],
            forall|i: int| old(vec)@.len() <= i < final(vec)@.len() ==> final(vec)@[i] == default,
    {
        while index >= vec.len()
            invariant
                index < usize::MAX,
                old(vec)@.len() <= vec@.len(),
                vec@.len() <= if index + 1 > old(vec)@.len() {
                    index + 1
                } else {
                    old(vec)@.len() as int
                },
                forall|i: int| 0 <= i < old(vec)@.len() ==> vec@[i] == old(vec)@[i],
                forall|i: int| old(vec)@.len() <= i < vec@.len() ==> vec@[i] == default,
            decreases index + 1 - vec@.len(),
        {
            vec.push(default);
        }
    }

    /// The `count` nodes with the most links (all nodes when there are fewer),
    /// each with its number of links, most links first.
    pub fn get_most_links(&self, count: u32) -> (r: Vec<(u32, u32)>)
        requires
            self.wf(),
        ensures
            r@.len() == if (count as int) < self.articles@.len() {
                count as int
            } else {
                self.articles@.len() as int
            },
            is_most_linked(self.adj(), r@),
    {
        let ghost adj = self.adj();
        let n: usize = self.articles.len();
        let mut counts: Vec<(u32, u32)> = Vec::new();
        let mut u: usize = 0;
        while u < n
            invariant
                n == adj.len(),
                n <= u32::MAX,
                adj == self.adj(),
                self.wf(),
                u <= n,
                counts@.len() == u,
                forall|i: int| 0 <= i < u ==> (#[trigger] counts@[i]) == (i as u32, adj[i].len() as u32),
            decreases n - u,
        {
            let c: usize = self.articles[u].links.len();
            assert(c == adj[u as int].len());
            counts.push((u as u32, c as u32));
            u = u + 1;
        }
        let ghost orig = counts@;
        proof {
            assert(orig.no_duplicates()) by {
                assert forall|i: int, j: int| 0 <= i < orig.len() && 0 <= j < orig.len() && i != j implies orig[i] != orig[j] by {
                    assert(orig[i].0 == i as u32 && orig[j].0 == j as u32);
                }
            }
            orig.lemma_multiset_has_no_duplicates();
        }
        sort_by_count_descending(&mut counts);
        let ghost v = counts@;
        proof {
            to_multiset_len(orig);
            to_multiset_len(v);
            assert forall|x: (u32, u32)| v.to_multiset().contains(x) implies v.to_multiset().count(x) == 1 by {
                assert(orig.to_multiset().contains(x));
            }
            v.lemma_multiset_has_no_duplicates_conv();
            assert forall|i: int| 0 <= i < v.len() implies (v[i].0 as int) < n && v[i].1 as int == adj[v[i].0 as int].len() by {
                to_multiset_contains(v, v[i]);
                to_multiset_contains(orig, v[i]);
                let j = choose|j: int| 0 <= j < orig.len() && orig[j] == v[i];
                assert(orig[j] == (j as u32, adj[j].len() as u32));
            }
        }
        let k: usize = if (count as usize) < n {
            count as usize
        } else {
            n
        };
        let mut r: Vec<(u32, u32)> = Vec::new();
        let mut i: usize = 0;
        while i < k
            invariant
                k <= n,
                n == adj.len(),
                counts@ == v,
                v.len() == n,
                i <= k,
                r@ == v.subrange(0, i as int),
            decreases k - i,
        {
            r.push(counts[i]);
            i = i + 1;
            assert(r@ =~= v.subrange(0, i as int));
        }
        proof {
            let rs = r@;
            assert forall|a: int, b: int| 0 <= a < b < rs.len() implies rs[a].0 != rs[b].0 by {
                if rs[a].0 == rs[b].0 {
                    assert(v[a] == v[b]);
                }
            }
            assert forall|a: int, w: u32|
                0 <= a < rs.len() && (w as int) < adj.len() && !(exists|j: int|
                    0 <= j < rs.len() && #[trigger] rs[j].0 == w) implies adj[w as int].len() <= rs[a].1 by {
                let x = (w, adj[w as int].len() as u32);
                assert(orig[w as int] == x);
                to_multiset_contains(orig, x);
                to_multiset_contains(v, x);
                let p = choose|p: int| 0 <= p < v.len() && v[p] == x;
                if p < rs.len() {
                    assert(rs[p].0 == w);
                }
            }
        }
        r
    }

    /// For each number of links, how many articles have that many: entry `c`
    /// counts the articles with `c` links, up to the largest count.
    pub fn get_links_histogram(&self) -> (r: Vec<u32>)
        requires
            self.wf(),
        ensures
            r@.len() == histogram_len(self.adj(), self.adj().len() as int),
            forall|c: int| 0 <= c < r@.len() ==> r@[c] as nat == count_with_len(self.adj(), c as nat, self.adj().len() as int),
    {
        let ghost adj = self.adj();
        let n: usize = self.articles.len();
        let mut link_counts: Vec<u32> = Vec::new();
        let mut u: usize = 0;
        while u < n
            invariant
                n == adj.len(),
                n <= u32::MAX,
                adj == self.adj(),
                self.wf(),
                u <= n,
                link_counts@.len() == histogram_len(adj, u as int),
                forall|c: int| 0 <= c < link_counts@.len() ==> link_counts@[c] as nat == count_with_len(adj, c as nat, u as int),
                forall|c: nat| c >= link_counts@.len() ==> count_with_len(adj, c, u as int) == 0,
                forall|c: nat| #[trigger] count_with_len(adj, c, u as int) <= u,
            decreases n - u,
        {
            let len: usize = self.articles[u].links.len();
            assert(len == adj[u as int].len());
            proof {
                assert forall|c: nat| #[trigger] count_with_len(adj, c, u + 1) <= u + 1 by {
                    assert(count_with_len(adj, c, u as int) <= u);
                }
            }
            WikipediaAnalysis::vec_initialise_up_to_index(&mut link_counts, len, 0u32);
            proof {
                assert(count_with_len(adj, len as nat, u + 1) <= u + 1);
            }
            link_counts.set(len, link_counts[len] + 1);
            u = u + 1;
            proof {
                assert forall|c: int| 0 <= c < link_counts@.len() implies link_counts@[c] as nat == count_with_len(adj, c as nat, u as int) by {
                    assert(count_with_len(adj, c as nat, u as int) == count_with_len(adj, c as nat, u - 1) + if adj[u - 1].len() == c { 1nat } else { 0nat });
                }
                assert forall|c: nat| c >= link_counts@.len() implies count_with_len(adj, c, u as int) == 0 by {
                    assert(count_with_len(adj, c, u as int) == count_with_len(adj, c, u - 1) + if adj[u - 1].len() == c { 1nat } else { 0nat });
                }
            }
        }
        link_counts
    }

    /// Adds to `visited`, and appends to `next`, each node that `u` lists and
    /// that `visited` does not yet hold.
    fn mark_new_links(&self, u: u32, visited: &mut VisitedSet, next: &mut Vec<u32>)
        requires
            self.wf(),
            (u as int) < self.articles@.len(),
            old(visited).wf(),
            old(visited).bound() == self.articles@.len(),
            old(visited)@.finite(),
            old(next)@.no_duplicates(),
            forall|x: u32| old(next)@.contains(x) ==> old(visited)@.contains(x),
        ensures
            final(visited).wf(),
            final(visited).bound() == old(visited).bound(),
            final(visited)@.finite(),
            final(next)@.no_duplicates(),
            final(visited)@.len() + old(next)@.len() == old(visited)@.len() + final(next)@.len(),
            forall|x: u32|
                final(visited)@.contains(x) <==> (old(visited)@.contains(x) || self.adj()[u as int].contains(x)),
            forall|x: u32|
                final(next)@.contains(x) <==> (old(next)@.contains(x) || (self.adj()[u as int].contains(x)
                    && !old(visited)@.contains(x))),
            old(next)@.len() <= final(next)@.len(),
            final(next)@.subrange(0, old(next)@.len() as int) == old(next)@,
            forall|j: int|
                old(next)@.len() <= j < final(next)@.len() ==> self.adj()[u as int].contains(
                    #[trigger] final(next)@[j],
                ),
    {
        let ghost adj = self.adj();
        let ghost v0 = visited@;
        let ghost n0 = next@;
        let links = &self.articles[u as usize].links;
        assert(links@ == adj[u as int]);
        let mut j: usize = 0;
        while j < links.len()
            invariant
                links_in_range(adj),
                adj == self.adj(),
                (u as int) < adj.len(),
                links@ == adj[u as int],
                j <= links@.len(),
                visited.wf(),
                visited.bound() == adj.len(),
                visited@.finite(),
                next@.no_duplicates(),
                visited@.len() + n0.len() == v0.len() + next@.len(),
                n0.len() <= next@.len(),
                next@.subrange(0, n0.len() as int) == n0,
                forall|k: int| n0.len() <= k < next@.len() ==> links@.contains(#[trigger] next@[k]),
                forall|x: u32| next@.contains(x) ==> visited@.contains(x),
                forall|x: u32|
                    visited@.contains(x) <==> (v0.contains(x) || links@.subrange(0, j as int).contains(x)),
                forall|x: u32|
                    next@.contains(x) <==> (n0.contains(x) || (links@.subrange(0, j as int).contains(x)
                        && !v0.contains(x))),
            decreases links@.len() - j,
        {
            let w = links[j];
            let ghost head = visited@;
            assert((w as int) < adj.len());
            assert(links@.subrange(0, j + 1) =~= links@.subrange(0, j as int).push(w));
            if !visited.contains(w) {
                proof {
                    lemma_push_fresh(next@, w);
                }
                let ghost nb = next@;
                visited.insert(w);
                next.push(w);
                proof {
                    assert(next@.subrange(0, n0.len() as int) =~= nb.subrange(0, n0.len() as int));
                    assert(links@[j as int] == w);
                }
            }
            proof {
                let sub = links@.subrange(0, j as int);
                lemma_push_fresh_contains(sub, w);
                assert(visited@.contains(w));
                assert(forall|x: u32| x != w ==> (visited@.contains(x) <==> head.contains(x)));
                assert(forall|x: u32| head.contains(x) <==> (v0.contains(x) || sub.contains(x)));
                assert forall|x: u32|
                    visited@.contains(x) <==> (v0.contains(x) || sub.push(w).contains(x)) by {
                    if x == w {
                    }
                }
            }
            j = j + 1;
        }
        proof {
            assert(j == links@.len());
            let whole = links@.subrange(0, j as int);
            assert(whole =~= links@);
            assert forall|x: u32|
                visited@.contains(x) <==> (v0.contains(x) || adj[u as int].contains(x)) by {
                assert(visited@.contains(x) <==> (v0.contains(x) || whole.contains(x)));
            }
            assert forall|x: u32|
                next@.contains(x) <==> (n0.contains(x) || (adj[u as int].contains(x) && !v0.contains(x))) by {
                assert(next@.contains(x) <==> (n0.contains(x) || (whole.contains(x) && !v0.contains(x))));
            }
        }
    }

    /// A copy of the link list of `u`.
    fn links_of(&self, u: u32) -> (r: Vec<u32>)
        requires
            (u as int) < self.articles@.len(),
        ensures
            r@ == self.adj()[u as int],
    {
        let links = &self.articles[u as usize].links;
        let mut r: Vec<u32> = Vec::new();
        let mut i: usize = 0;
        while i < links.len()
            invariant
                i <= links@.len(),
                r@ == links@.subrange(0, i as int),
            decreases links@.len() - i,
        {
            r.push(links[i]);
            i = i + 1;
            assert(r@ =~= links@.subrange(0, i as int));
        }
        assert(links@.subrange(0, links@.len() as int) =~= links@);
        r
    }

    /// Whether the link list of `u` holds `v`.
    fn lists(&self, u: u32, v: u32) -> (r: bool)
        requires
            self.wf(),
            (u as int) < self.articles@.len(),
        ensures
            r == self.adj()[u as int].contains(v),
    {
        let links = &self.articles[u as usize].links;
        assert(links@ == self.adj()[u as int]);
        let mut j: usize = 0;
        while j < links.len()
            invariant
                j <= links@.len(),
                links@ == self.adj()[u as int],
                forall|k: int| 0 <= k < j ==> links@[k] != v,
            decreases links@.len() - j,
        {
            if links[j] == v {
                assert(links@[j as int] == v);
                return true;
            }
            j = j + 1;
        }
        false
    }

    /// The number of steps on a shortest walk from `start_article` to
    /// `destination_article`, following link lists from the destination.
    /// Returns `None` when no walk leads there. Each node is expanded once,
    /// so the search ends on graphs with cycles too.
    pub fn get_number_of_steps_between_articles(
        &self,
        start_article: u32,
        destination_article: u32,
    ) -> (r: Option<u32>)
        requires
            self.wf(),
            (destination_article as int) < self.articles@.len(),
        ensures
            r matches Some(k) ==> shortest_steps(
                self.adj(),
                start_article,
                destination_article,
                k as nat,
            ),
            r is None <==> !reaches(self.adj(), start_article, destination_article),
    {
        let ghost adj = self.adj();
        let ghost s = start_article;
        let ghost d = destination_article;
        let n: usize = self.articles.len();
        let mut visited = VisitedSet::new(n);
        let mut frontier: Vec<u32> = Vec::new();
        let dlinks = &self.articles[destination_article as usize].links;
        assert(dlinks@ == adj[d as int]);
        let mut j: usize = 0;
        while j < dlinks.len()
            invariant
                visited.wf(),
                visited.bound() == n,
                n == adj.len(),
                links_in_range(adj),
                dlinks@ == adj[d as int],
                (d as int) < adj.len(),
                j <= dlinks@.len(),
                frontier@.no_duplicates(),
                forall|x: u32| frontier@.contains(x) <==> visited@.contains(x),
                forall|x: u32| visited@.contains(x) ==> adj[d as int].contains(x),
                forall|i: int| 0 <= i < j ==> visited@.contains(#[trigger] dlinks@[i]),
            decreases dlinks@.len() - j,
        {
            let v = dlinks[j];
            assert((v as int) < n);
            if !visited.contains(v) {
                proof {
                    lemma_push_fresh(frontier@, v);
                }
                visited.insert(v);
                frontier.push(v);
            }
            j = j + 1;
        }
        let ghost mut prev: Set<u32> = Set::empty();
        let mut depth: u32 = 1;
        proof {
            lemma_within_zero(adj, d);
            assert forall|x: u32| visited@.contains(x) implies within(adj, d, 1).contains(x) by {
                lemma_within_one(adj, d, x);
            }
            assert forall|x: u32| within(adj, d, 1).contains(x) implies visited@.contains(x) by {
                let p = choose|p: Seq<u32>| walk_between(adj, p, x, d) && p.len() <= 2;
                let z: int = 0;
                assert(listed_by(adj, p[z], p[z + 1]));
                let k = choose|k: int| 0 <= k < dlinks@.len() && dlinks@[k] == x;
                assert(visited@.contains(dlinks@[k]));
            }
            lemma_bounded_set(visited@, n as nat);
            if frontier@.len() > 0 {
                assert(visited@.contains(frontier@[0]));
                if visited@.len() == 0 {
                    visited@.lemma_len0_is_empty();
                }
            }
        }
        loop
            invariant
                visited.wf(),
                visited.bound() == n,
                n == adj.len(),
                n <= u32::MAX,
                links_in_range(adj),
                adj == self.adj(),
                self.wf(),
                (d as int) < adj.len(),
                s == start_article,
                d == destination_article,
                1 <= depth,
                depth as nat <= visited@.len() + 1,
                frontier@.len() > 0 ==> depth as nat <= visited@.len(),
                visited@.finite(),
                visited@.len() <= n,
                frontier@.no_duplicates(),
                forall|x: u32| frontier@.contains(x) ==> visited@.contains(x),
                forall|x: u32| visited@.contains(x) <==> (prev.contains(x) || frontier@.contains(x)),
                forall|x: u32| prev.contains(x) ==> !frontier@.contains(x),
                forall|x: u32| visited@.contains(x) ==> (x as int) < n,
                forall|x: u32| #[trigger] visited@.contains(x) ==> within(adj, d, depth as nat).contains(x),
                within(adj, d, depth as nat).subset_of(visited@),
                within(adj, d, (depth - 1) as nat).subset_of(prev),
                !prev.contains(s),
                closed_under(adj, prev, visited@),
            decreases n - visited@.len(),
        {
            let ghost old_visited = visited@;
            let mut next: Vec<u32> = Vec::new();
            let mut i: usize = 0;
            while i < frontier.len()
                invariant
                    visited.wf(),
                    visited.bound() == n,
                    n == adj.len(),
                    n <= u32::MAX,
                    links_in_range(adj),
                    adj == self.adj(),
                    self.wf(),
                    s == start_article,
                    d == destination_article,
                    1 <= depth,
                    i <= frontier@.len(),
                    visited@.finite(),
                    old_visited.finite(),
                    visited@.len() == old_visited.len() + next@.len(),
                    next@.len() > 0 ==> frontier@.len() > 0,
                    next@.no_duplicates(),
                    forall|x: u32| frontier@.contains(x) ==> old_visited.contains(x),
                    forall|x: u32| old_visited.contains(x) <==> (prev.contains(x) || frontier@.contains(x)),
                    closed_under(adj, prev, old_visited),
                    within(adj, d, (depth - 1) as nat).subset_of(prev),
                    within(adj, d, depth as nat).subset_of(old_visited),
                    !prev.contains(s),
                    (d as int) < adj.len(),
                    forall|x: u32| #[trigger] old_visited.contains(x) ==> within(adj, d, depth as nat).contains(x),
                    forall|x: u32| old_visited.contains(x) ==> (x as int) < n,
                    forall|x: u32|
                        visited@.contains(x) <==> (old_visited.contains(x) || next@.contains(x)),
                    forall|x: u32| next@.contains(x) ==> !old_visited.contains(x),
                    forall|x: u32| next@.contains(x) ==> visited@.contains(x),
                    forall|x: u32| next@.contains(x) ==> (x as int) < n,
                    forall|x: u32| #[trigger] next@.contains(x) ==> within(adj, d, (depth + 1) as nat).contains(x),
                    forall|k: int| 0 <= k < i ==> frontier@[k] != s,
                    forall|k: int, w: u32|
                        0 <= k < i && #[trigger] adj[frontier@[k] as int].contains(w) ==> visited@.contains(w),
                decreases frontier@.len() - i,
            {
                let u = frontier[i];
                assert(frontier@[i as int] == u);
                assert(frontier@.contains(u));
                assert(old_visited.contains(u));
                if u == start_article {
                    proof {
                        assert(frontier@.contains(u));
                        assert(old_visited.contains(u));
                        assert(within(adj, d, depth as nat).contains(s));
                        assert(!within(adj, d, (depth - 1) as nat).contains(s));
                        let p = choose|p: Seq<u32>|
                            walk_between(adj, p, s, d) && p.len() <= depth as nat + 1;
                        assert(walk_between(adj, p, s, d));
                    }
                    return Some(depth);
                }
                assert(frontier@.contains(u));
                assert((u as int) < n);
                let ghost before = visited@;
                let ghost next_before = next@;
                self.mark_new_links(u, &mut visited, &mut next);
                proof {
                    assert forall|x: u32| #[trigger] next@.contains(x) implies within(adj, d, (depth + 1) as nat).contains(x) by {
                        if !next_before.contains(x) {
                            lemma_within_extend(adj, d, depth as nat, u, x);
                        }
                    }
                }
                proof {
                    assert forall|k: int, w: u32|
                        0 <= k < i + 1 && #[trigger] adj[frontier@[k] as int].contains(w) implies visited@.contains(w) by {
                        if k < i {
                            assert(before.contains(w));
                        }
                    }
                }
                i = i + 1;
            }
            let ghost level_closed = visited@;
            proof {
                assert(!frontier@.contains(s)) by {
                    if frontier@.contains(s) {
                        let k = choose|k: int| 0 <= k < frontier@.len() && frontier@[k] == s;
                    }
                }
                assert(closed_under(adj, old_visited, visited@)) by {
                    assert forall|x: u32, w: u32|
                        #[trigger] old_visited.contains(x) && #[trigger] adj[x as int].contains(w)
                        implies visited@.contains(w) by {
                        if frontier@.contains(x) {
                            let k = choose|k: int| 0 <= k < frontier@.len() && frontier@[k] == x;
                            assert(adj[frontier@[k] as int].contains(w));
                        } else {
                            assert(prev.contains(x));
                        }
                    }
                }
                assert forall|x: u32| visited@.contains(x) implies (x as int) < n by {
                    if old_visited.contains(x) {
                    } else {
                        assert(next@.contains(x));
                    }
                }
                lemma_bounded_set(visited@, n as nat);
            }
            if next.len() == 0 {
                proof {
                    assert(visited@ =~= old_visited);
                    assert forall|x: u32| adj[d as int].contains(x) implies visited@.contains(x) by {
                        lemma_within_one(adj, d, x);
                        lemma_within_monotone(adj, d, 1, depth as nat);
                    }
                    assert(!visited@.contains(s));
                    assert forall|p: Seq<u32>| !walk_between(adj, p, s, d) by {
                        if walk_between(adj, p, s, d) {
                            lemma_walk_within(adj, p, s, d, (p.len() - 1) as nat);
                            lemma_closed_holds_within(adj, d, visited@, (p.len() - 1) as nat);
                        }
                    }
                }
                return None;
            }
            proof {
                assert(next@.contains(next@[0]));
                assert forall|w: u32| within(adj, d, (depth + 1) as nat).contains(w) implies visited@.contains(w) by {
                    lemma_within_step(adj, d, depth as nat, w);
                    if !within(adj, d, depth as nat).contains(w) {
                        let x = choose|x: u32|
                            #[trigger] within(adj, d, depth as nat).contains(x) && (x as int) < adj.len()
                                && adj[x as int].contains(w);
                        assert(old_visited.contains(x));
                    }
                }
                assert forall|x: u32| #[trigger] visited@.contains(x) implies within(adj, d, (depth + 1) as nat).contains(x) by {
                    if old_visited.contains(x) {
                        lemma_within_monotone(adj, d, depth as nat, (depth + 1) as nat);
                    }
                }
                prev = old_visited;
            }
            frontier = next;
            depth = depth + 1;
        }
    }

    /// The breadth-first layers around `root_article`: first its link list,
    /// then each layer of nodes not yet reached that the previous layer lists,
    /// up to `max_depth` layers (by default the number of articles).
    pub fn get_step_count_groups(&self, root_article: u32, max_depth: Option<u32>) -> (r: Vec<
        Vec<u32>,
    >)
        requires
            self.wf(),
            (root_article as int) < self.articles@.len(),
        ensures
            is_layering(
                self.adj(),
                root_article,
                match max_depth {
                    Some(m) => m as nat,
                    None => self.articles@.len(),
                },
                groups_view(r@),
            ),
    {
        let ghost adj = self.adj();
        let ghost root = root_article;
        let n: usize = self.articles.len();
        let limit: u32 = match max_depth {
            Some(m) => m,
            None => n as u32,
        };
        let mut depth: u32 = limit;
        let mut groups: Vec<Vec<u32>> = Vec::new();
        let first = self.links_of(root_article);
        let mut visited = VisitedSet::new(n);
        visited.insert(root_article);
        let mut scratch: Vec<u32> = Vec::new();
        proof {
            lemma_bounded_set(visited@, n as nat);
        }
        self.mark_new_links(root_article, &mut visited, &mut scratch);
        groups.push(first);
        proof {
            let g = groups_view(groups@);
            assert(g[0] == adj[root as int]);
            assert forall|x: u32| visited@.contains(x) <==> seen_before(root, g, 1).contains(x) by {
                if adj[root as int].contains(x) {
                    assert(g[0].contains(x));
                }
            }
        }
        let mut growing = true;
        while growing && depth > 1
            invariant
                self.wf(),
                adj == self.adj(),
                limit as nat == (match max_depth {
                    Some(m) => m as nat,
                    None => adj.len(),
                }),
                depth >= 1 || limit == 0,
                !growing ==> next_layer(
                    adj,
                    seen_before(root, groups_view(groups@), groups@.len() as int),
                    groups_view(groups@)[groups@.len() - 1],
                ) =~= Set::<u32>::empty(),
                n == adj.len(),
                n <= u32::MAX,
                links_in_range(adj),
                root == root_article,
                (root as int) < n,
                visited.wf(),
                visited.bound() == n,
                visited@.finite(),
                groups@.len() >= 1,
                limit as int + 1 == depth as int + groups@.len() || (limit == 0 && depth == 0
                    && groups@.len() == 1),
                groups_view(groups@)[0] == adj[root as int],
                forall|k: int|
                    1 <= k < groups@.len() ==> (#[trigger] groups_view(groups@)[k]).len() > 0
                        && groups_view(groups@)[k].no_duplicates(),
                forall|k: int, x: u32|
                    1 <= k < groups@.len() ==> (#[trigger] groups_view(groups@)[k].contains(x)
                        <==> next_layer(
                        adj,
                        seen_before(root, groups_view(groups@), k),
                        groups_view(groups@)[k - 1],
                    ).contains(x)),
                forall|x: u32|
                    #[trigger] visited@.contains(x) <==> seen_before(
                        root,
                        groups_view(groups@),
                        groups@.len() as int,
                    ).contains(x),
                forall|k: int, j: int|
                    0 <= k < groups@.len() && 0 <= j < groups@[k]@.len() ==> (
                    #[trigger] groups@[k]@[j] as int) < n,
            decreases depth, if growing { 1int } else { 0int },
        {
            let ghost g = groups_view(groups@);
            let ghost seen = visited@;
            let last: usize = groups.len() - 1;
            let cur = &groups[last];
            let mut next: Vec<u32> = Vec::new();
            let mut i: usize = 0;
            while i < cur.len()
                invariant
                    self.wf(),
                    adj == self.adj(),
                    n == adj.len(),
                    cur@ == g[last as int],
                    last as int == g.len() - 1,
                    forall|j: int| 0 <= j < cur@.len() ==> (#[trigger] cur@[j] as int) < n,
                    i <= cur@.len(),
                    visited.wf(),
                    visited.bound() == n,
                    visited@.finite(),
                    next@.no_duplicates(),
                    forall|x: u32| #[trigger] seen.contains(x) <==> seen_before(root, g, g.len() as int).contains(x),
                    forall|x: u32| next@.contains(x) ==> visited@.contains(x),
                    forall|x: u32| #[trigger] visited@.contains(x) <==> (seen.contains(x) || next@.contains(x)),
                    forall|x: u32|
                        #[trigger] next@.contains(x) <==> (!seen.contains(x) && exists|j: int|
                            0 <= j < i && #[trigger] adj[cur@[j] as int].contains(x)),
                decreases cur@.len() - i,
            {
                let u = cur[i];
                assert((u as int) < n);
                let ghost vb = visited@;
                let ghost nb = next@;
                self.mark_new_links(u, &mut visited, &mut next);
                proof {
                    assert forall|x: u32| next@.contains(x) <==> (!seen.contains(x) && exists|j: int|
                        0 <= j < i + 1 && #[trigger] adj[cur@[j] as int].contains(x)) by {
                        if next@.contains(x) {
                            if nb.contains(x) {
                                let j = choose|j: int| 0 <= j < i && #[trigger] adj[cur@[j] as int].contains(x);
                                assert(adj[cur@[j] as int].contains(x));
                            } else {
                                assert(adj[cur@[i as int] as int].contains(x));
                                assert(!vb.contains(x));
                            }
                        }
                        if !seen.contains(x) && exists|j: int| 0 <= j < i + 1 && #[trigger] adj[cur@[j] as int].contains(x) {
                            let j = choose|j: int| 0 <= j < i + 1 && #[trigger] adj[cur@[j] as int].contains(x);
                            if j < i {
                                assert(nb.contains(x));
                            } else {
                                if vb.contains(x) {
                                    assert(nb.contains(x));
                                }
                            }
                        }
                    }
                }
                i = i + 1;
            }
            proof {
                assert forall|x: u32| next@.contains(x) <==> #[trigger] next_layer(adj, seen_before(root, g, g.len() as int), g[g.len() - 1]).contains(x) by {
                    assert(seen.contains(x) <==> seen_before(root, g, g.len() as int).contains(x));
                }
            }
            if next.len() == 0 {
                proof {
                    assert forall|x: u32| !#[trigger] next_layer(adj, seen_before(root, g, g.len() as int), g[g.len() - 1]).contains(x) by {
                        if next_layer(adj, seen_before(root, g, g.len() as int), g[g.len() - 1]).contains(x) {
                            assert(next@.contains(x));
                        }
                    }
                    assert forall|x: u32| #[trigger] visited@.contains(x) <==> seen_before(root, g, g.len() as int).contains(x) by {
                        if next@.contains(x) {
                            let j = choose|j: int| 0 <= j < next@.len() && next@[j] == x;
                        }
                    }
                }
                growing = false;
            } else {
                let ghost nv = next@;
                groups.push(next);
                proof {
                    let g2 = groups_view(groups@);
                    assert(g2 =~= g.push(nv));
                    assert(nv.contains(nv[0]));
                    assert forall|k: int| 0 <= k <= g.len() implies seen_before(root, g2, k) =~= seen_before(root, g, k) by {
                        lemma_seen_before_push(root, g, nv, k);
                    }
                    assert forall|x: u32| visited@.contains(x) <==> seen_before(root, g2, g2.len() as int).contains(x) by {
                        if nv.contains(x) {
                            assert(g2[g.len() as int].contains(x));
                        }
                        if seen_before(root, g2, g2.len() as int).contains(x) && x != root {
                            let j = choose|j: int| 0 <= j < g2.len() && #[trigger] g2[j].contains(x);
                            if j < g.len() {
                                assert(seen_before(root, g, g.len() as int).contains(x));
                            }
                        }
                    }
                    assert forall|k: int, j: int|
                        0 <= k < groups@.len() && 0 <= j < groups@[k]@.len() implies (
                        #[trigger] groups@[k]@[j] as int) < n by {
                        if k == g.len() {
                            assert(nv.contains(nv[j]));
                            assert(visited@.contains(nv[j]));
                        }
                    }
                }
                depth = depth - 1;
            }
        }
        groups
    }

    /// A shortest walk of at least two steps from `start_article` to
    /// `destination_article`, following link lists from the destination: the
    /// start, the nodes between, then the destination. Returns `None` when no
    /// such walk exists. The search starts from the nodes the destination
    /// lists and looks for the start among the nodes those list, so a start
    /// that the destination lists directly is found only by a longer walk.
    pub fn get_path_between_articles(
        &self,
        start_article: u32,
        destination_article: u32,
    ) -> (r: Option<Vec<u32>>)
        requires
            self.wf(),
            (destination_article as int) < self.articles@.len(),
        ensures
            r matches Some(p) ==> shortest_path(self.adj(), p@, start_article, destination_article),
            r is None <==> !reaches_through(self.adj(), start_article, destination_article),
    {
        let ghost adj = self.adj();
        let ghost s = start_article;
        let ghost d = destination_article;
        let n: usize = self.articles.len();
        let mut visited = VisitedSet::new(n);
        let mut frontier: Vec<u32> = Vec::new();
        self.mark_new_links(destination_article, &mut visited, &mut frontier);
        let mut paths: Vec<Vec<u32>> = Vec::new();
        let mut m: usize = 0;
        while m < frontier.len()
            invariant
                m <= frontier@.len(),
                paths@.len() == m,
                (d as int) < adj.len(),
                forall|j: int| 0 <= j < frontier@.len() ==> adj[d as int].contains(#[trigger] frontier@[j]),
                forall|j: int|
                    0 <= j < m ==> (#[trigger] paths@[j])@ == seq![frontier@[j]],
            decreases frontier@.len() - m,
        {
            let mut e: Vec<u32> = Vec::new();
            e.push(frontier[m]);
            paths.push(e);
            m = m + 1;
        }
        let ghost mut prev: Set<u32> = Set::empty();
        let ghost mut k: nat = 1;
        proof {
            lemma_within_zero(adj, d);
            assert forall|j: int| 0 <= j < paths@.len() implies is_chain(adj, (#[trigger] paths@[j])@, d) && paths@[j]@.len() == k && paths@[j]@[paths@[j]@.len() - 1] == frontier@[j] by {
                assert(adj[d as int].contains(frontier@[j]));
            }
            assert forall|x: u32| #[trigger] visited@.contains(x) implies within(adj, d, 1).contains(x) by {
                lemma_within_one(adj, d, x);
            }
            assert forall|x: u32| within(adj, d, 1).contains(x) implies visited@.contains(x) by {
                let p = choose|p: Seq<u32>| walk_between(adj, p, x, d) && p.len() <= 2;
                let z: int = 0;
                assert(listed_by(adj, p[z], p[z + 1]));
            }
            assert forall|x: u32| frontier@.contains(x) <==> visited@.contains(x) by {
            }
            lemma_bounded_set(visited@, n as nat);
        }
        loop
            invariant
                visited.wf(),
                visited.bound() == n,
                n == adj.len(),
                n <= u32::MAX,
                links_in_range(adj),
                adj == self.adj(),
                self.wf(),
                (d as int) < adj.len(),
                s == start_article,
                d == destination_article,
                k >= 1,
                visited@.finite(),
                visited@.len() <= n,
                frontier@.no_duplicates(),
                paths@.len() == frontier@.len(),
                forall|j: int|
                    0 <= j < paths@.len() ==> is_chain(adj, (#[trigger] paths@[j])@, d) && paths@[j]@.len()
                        == k && paths@[j]@[paths@[j]@.len() - 1] == frontier@[j],
                forall|x: u32| frontier@.contains(x) ==> visited@.contains(x),
                forall|x: u32| visited@.contains(x) <==> (prev.contains(x) || frontier@.contains(x)),
                forall|x: u32| prev.contains(x) ==> !frontier@.contains(x),
                forall|x: u32| visited@.contains(x) ==> (x as int) < n,
                forall|x: u32| #[trigger] visited@.contains(x) ==> within(adj, d, k).contains(x),
                within(adj, d, k).subset_of(visited@),
                within(adj, d, (k - 1) as nat).subset_of(prev),
                forall|x: u32| #[trigger] prev.contains(x) ==> !adj[x as int].contains(s),
                closed_under(adj, prev, visited@),
            decreases n - visited@.len(),
        {
            let ghost old_visited = visited@;
            let mut next: Vec<u32> = Vec::new();
            let mut next_paths: Vec<Vec<u32>> = Vec::new();
            let mut i: usize = 0;
            while i < frontier.len()
                invariant
                    visited.wf(),
                    visited.bound() == n,
                    n == adj.len(),
                    n <= u32::MAX,
                    links_in_range(adj),
                    adj == self.adj(),
                    self.wf(),
                    s == start_article,
                    d == destination_article,
                    k >= 1,
                    i <= frontier@.len(),
                    visited@.finite(),
                    old_visited.finite(),
                    visited@.len() == old_visited.len() + next@.len(),
                    next@.no_duplicates(),
                    paths@.len() == frontier@.len(),
                    forall|j: int|
                        0 <= j < paths@.len() ==> is_chain(adj, (#[trigger] paths@[j])@, d) && paths@[j]@.len()
                            == k && paths@[j]@[paths@[j]@.len() - 1] == frontier@[j],
                    next_paths@.len() == next@.len(),
                    forall|j: int|
                        0 <= j < next_paths@.len() ==> is_chain(adj, (#[trigger] next_paths@[j])@, d)
                            && next_paths@[j]@.len() == k + 1 && next_paths@[j]@[next_paths@[j]@.len()
                            - 1] == next@[j],
                    forall|x: u32| frontier@.contains(x) ==> old_visited.contains(x),
                    forall|x: u32| old_visited.contains(x) <==> (prev.contains(x) || frontier@.contains(x)),
                    closed_under(adj, prev, old_visited),
                    within(adj, d, (k - 1) as nat).subset_of(prev),
                    within(adj, d, k).subset_of(old_visited),
                    forall|x: u32| #[trigger] prev.contains(x) ==> !adj[x as int].contains(s),
                    (d as int) < adj.len(),
                    forall|x: u32| #[trigger] old_visited.contains(x) ==> within(adj, d, k).contains(x),
                    forall|x: u32| old_visited.contains(x) ==> (x as int) < n,
                    forall|x: u32|
                        visited@.contains(x) <==> (old_visited.contains(x) || next@.contains(x)),
                    forall|x: u32| next@.contains(x) ==> !old_visited.contains(x),
                    forall|x: u32| next@.contains(x) ==> visited@.contains(x),
                    forall|x: u32| next@.contains(x) ==> (x as int) < n,
                    forall|j: int| 0 <= j < i ==> !adj[frontier@[j] as int].contains(s),
                    forall|j: int, w: u32|
                        0 <= j < i && #[trigger] adj[frontier@[j] as int].contains(w) ==> visited@.contains(w),
                decreases frontier@.len() - i,
            {
                let t = frontier[i];
                assert(frontier@[i as int] == t);
                assert(frontier@.contains(t));
                assert(old_visited.contains(t));
                assert((t as int) < n);
                if self.lists(t, start_article) {
                    let p = assemble_path(start_article, &paths[i], destination_article);
                    proof {
                        let e = paths@[i as int]@;
                        lemma_chain_walk(adj, e, d);
                        lemma_walk_prepend(adj, rev_walk(e, d), s);
                        assert(walk_between(adj, p@, s, d));
                        assert forall|q: Seq<u32>| walk_between(adj, q, s, d) && q.len() >= 3 implies p@.len() <= q.len() by {
                            lemma_long_walk_second(adj, q, s, d);
                            if q.len() < k + 2 {
                                lemma_within_monotone(adj, d, (q.len() - 2) as nat, (k - 1) as nat);
                                assert(prev.contains(q[1]));
                            }
                        }
                    }
                    return Some(p);
                }
                let ghost before = visited@;
                let ghost next_before = next@;
                let before_len: usize = next.len();
                self.mark_new_links(t, &mut visited, &mut next);
                proof {
                    assert forall|j: int| 0 <= j < before_len implies next@[j] == next_before[j] by {
                        assert(next@.subrange(0, before_len as int)[j] == next@[j]);
                    }
                }
                let mut m: usize = before_len;
                while m < next.len()
                    invariant
                        before_len <= m <= next@.len(),
                        next_paths@.len() == m,
                        i < paths@.len(),
                        (t as int) < n,
                        n == adj.len(),
                        is_chain(adj, paths@[i as int]@, d),
                        paths@[i as int]@.len() == k,
                        paths@[i as int]@[paths@[i as int]@.len() - 1] == t,
                        forall|j: int|
                            before_len <= j < next@.len() ==> adj[t as int].contains(#[trigger] next@[j]),
                        forall|j: int|
                            0 <= j < next_paths@.len() ==> is_chain(adj, (#[trigger] next_paths@[j])@, d)
                                && next_paths@[j]@.len() == k + 1 && next_paths@[j]@[next_paths@[j]@.len()
                                - 1] == next@[j],
                    decreases next@.len() - m,
                {
                    let q = extended(&paths[i], next[m]);
                    proof {
                        assert(adj[t as int].contains(next@[m as int]));
                        lemma_chain_push(adj, paths@[i as int]@, d, next@[m as int]);
                    }
                    next_paths.push(q);
                    m = m + 1;
                }
                proof {
                    assert forall|j: int, w: u32|
                        0 <= j < i + 1 && #[trigger] adj[frontier@[j] as int].contains(w) implies visited@.contains(w) by {
                        if j < i {
                            assert(before.contains(w));
                        }
                    }
                }
                i = i + 1;
            }
            proof {
                assert forall|x: u32| old_visited.contains(x) implies !adj[x as int].contains(s) by {
                    if frontier@.contains(x) {
                        let j = choose|j: int| 0 <= j < frontier@.len() && frontier@[j] == x;
                    } else {
                        assert(prev.contains(x));
                    }
                }
                assert(closed_under(adj, old_visited, visited@)) by {
                    assert forall|x: u32, w: u32|
                        #[trigger] old_visited.contains(x) && #[trigger] adj[x as int].contains(w)
                        implies visited@.contains(w) by {
                        if frontier@.contains(x) {
                            let j = choose|j: int| 0 <= j < frontier@.len() && frontier@[j] == x;
                            assert(adj[frontier@[j] as int].contains(w));
                        } else {
                            assert(prev.contains(x));
                        }
                    }
                }
                assert forall|x: u32| visited@.contains(x) implies (x as int) < n by {
                    if old_visited.contains(x) {
                    } else {
                        assert(next@.contains(x));
                    }
                }
                lemma_bounded_set(visited@, n as nat);
            }
            if next.len() == 0 {
                proof {
                    assert(visited@ =~= old_visited);
                    assert forall|x: u32| adj[d as int].contains(x) implies visited@.contains(x) by {
                        lemma_within_one(adj, d, x);
                        lemma_within_monotone(adj, d, 1, k);
                    }
                    assert forall|q: Seq<u32>| !(walk_between(adj, q, s, d) && q.len() >= 3) by {
                        if walk_between(adj, q, s, d) && q.len() >= 3 {
                            lemma_long_walk_second(adj, q, s, d);
                            lemma_closed_holds_within(adj, d, visited@, (q.len() - 2) as nat);
                            assert(old_visited.contains(q[1]));
                        }
                    }
                }
                return None;
            }
            proof {
                assert(next@.contains(next@[0]));
                assert forall|w: u32| within(adj, d, k + 1).contains(w) implies visited@.contains(w) by {
                    lemma_within_step(adj, d, k, w);
                    if !within(adj, d, k).contains(w) {
                        let x = choose|x: u32|
                            #[trigger] within(adj, d, k).contains(x) && (x as int) < adj.len()
                                && adj[x as int].contains(w);
                        assert(old_visited.contains(x));
                    }
                }
                assert forall|x: u32| #[trigger] visited@.contains(x) implies within(adj, d, k + 1).contains(x) by {
                    if old_visited.contains(x) {
                        lemma_within_monotone(adj, d, k, k + 1);
                    } else {
                        assert(next@.contains(x));
                        let j = choose|j: int| 0 <= j < next@.len() && next@[j] == x;
                        lemma_chain_walk(adj, next_paths@[j]@, d);
                    }
                }
                prev = old_visited;
                k = k + 1;
            }
            frontier = next;
            paths = next_paths;
        }
    }
}


/// A shortest walk has one step exactly when `d` lists `s`; in particular a
/// node reaches itself in one step exactly when it lists itself.
pub proof fn lemma_one_step(adj: Seq<Seq<u32>>, s: u32, d: u32)
    requires
        (d as int) < adj.len(),
    ensures
        shortest_steps(adj, s, d, 1) <==> adj[d as int].contains(s),
{
    lemma_within_zero(adj, d);
    if adj[d as int].contains(s) {
        lemma_within_one(adj, d, s);
    }
    if within(adj, d, 1).contains(s) {
        let p = choose|p: Seq<u32>| walk_between(adj, p, s, d) && p.len() <= 2;
        let z: int = 0;
        assert(listed_by(adj, p[z], p[z + 1]));
    }
}

/// The step count of a shortest walk is one less than the length of a
/// shortest path, unless `d` lists `s` itself.
pub proof fn lemma_steps_match_path(adj: Seq<Seq<u32>>, s: u32, d: u32, k: nat, p: Seq<u32>)
    requires
        (d as int) < adj.len(),
        shortest_steps(adj, s, d, k),
        shortest_path(adj, p, s, d),
        !adj[d as int].contains(s),
    ensures
        k == p.len() - 1,
{
    lemma_walk_within(adj, p, s, d, (p.len() - 1) as nat);
    if p.len() - 1 < k {
        lemma_within_monotone(adj, d, (p.len() - 1) as nat, (k - 1) as nat);
    }
    let q = choose|q: Seq<u32>| walk_between(adj, q, s, d) && q.len() <= k + 1;
    if q.len() < k + 1 {
        lemma_walk_within(adj, q, s, d, (k - 1) as nat);
    }
    if q.len() == 2 {
        let z: int = 0;
        assert(listed_by(adj, q[z], q[z + 1]));
    }
}

/// Unless `d` lists `s` itself, a shortest path is no longer than any walk
/// from `s` to `d`.
pub proof fn lemma_path_minimal(adj: Seq<Seq<u32>>, s: u32, d: u32, p: Seq<u32>, q: Seq<u32>)
    requires
        (d as int) < adj.len(),
        shortest_path(adj, p, s, d),
        walk_between(adj, q, s, d),
        !adj[d as int].contains(s),
    ensures
        p.len() <= q.len(),
{
    if q.len() == 2 {
        let z: int = 0;
        assert(listed_by(adj, q[z], q[z + 1]));
    }
}

/// In breadth-first layers no node is in two groups, every node of a later
/// group is listed by a node of the group before, and the root is in none
/// when it does not list itself.
pub proof fn lemma_layers_partition(
    adj: Seq<Seq<u32>>,
    root: u32,
    limit: nat,
    groups: Seq<Seq<u32>>,
)
    requires
        (root as int) < adj.len(),
        all_strictly_ascending(adj),
        is_layering(adj, root, limit, groups),
    ensures
        forall|k: int| 0 <= k < groups.len() ==> (#[trigger] groups[k]).no_duplicates(),
        forall|j: int, k: int, x: u32|
            0 <= j < k < groups.len() && #[trigger] groups[j].contains(x) ==> !#[trigger] groups[k].contains(x),
        forall|k: int, x: u32|
            1 <= k < groups.len() && #[trigger] groups[k].contains(x) ==> exists|i: int|
                0 <= i < groups[k - 1].len() && #[trigger] adj[groups[k - 1][i] as int].contains(x),
        !adj[root as int].contains(root) ==> forall|k: int|
            0 <= k < groups.len() ==> !(#[trigger] groups[k]).contains(root),
{
    assert forall|k: int| 0 <= k < groups.len() implies (#[trigger] groups[k]).no_duplicates() by {
        if k == 0 {
            assert(strictly_ascending(adj[root as int]));
        }
    }
    assert forall|j: int, k: int, x: u32|
        0 <= j < k < groups.len() && #[trigger] groups[j].contains(x) implies !#[trigger] groups[k].contains(x) by {
        if groups[k].contains(x) {
            assert(seen_before(root, groups, k).contains(x));
        }
    }
    assert forall|k: int, x: u32| 1 <= k < groups.len() && #[trigger] groups[k].contains(x) implies exists|i: int|
        0 <= i < groups[k - 1].len() && #[trigger] adj[groups[k - 1][i] as int].contains(x) by {
        assert(next_layer(adj, seen_before(root, groups, k), groups[k - 1]).contains(x));
    }
    if !adj[root as int].contains(root) {
        assert forall|k: int| 0 <= k < groups.len() implies !(#[trigger] groups[k]).contains(root) by {
            if k > 0 && groups[k].contains(root) {
                assert(seen_before(root, groups, k).contains(root));
            }
        }
    }
}

/// A most-linked list as long as the graph holds every node.
pub proof fn lemma_most_linked_all(adj: Seq<Seq<u32>>, r: Seq<(u32, u32)>)
    requires
        adj.len() <= u32::MAX,
        is_most_linked(adj, r),
        r.len() == adj.len(),
    ensures
        r.map_values(|e: (u32, u32)| e.0).to_set() == below(adj.len()),
{
    let ids = r.map_values(|e: (u32, u32)| e.0);
    assert(ids.no_duplicates()) by {
        assert forall|i: int, j: int| 0 <= i < ids.len() && 0 <= j < ids.len() && i != j implies ids[i] != ids[j] by {
            if i < j {
                assert(r[i].0 != r[j].0);
            } else {
                assert(r[j].0 != r[i].0);
            }
        }
    }
    ids.unique_seq_to_set();
    lemma_below(adj.len());
    assert(ids.to_set().subset_of(below(adj.len()))) by {
        assert forall|x: u32| ids.to_set().contains(x) implies below(adj.len()).contains(x) by {
            let i = choose|i: int| 0 <= i < ids.len() && ids[i] == x;
        }
    }
    lemma_bounded_set(ids.to_set(), adj.len());
    vstd::set_lib::lemma_subset_equality(ids.to_set(), below(adj.len()));
}

} // verus!
