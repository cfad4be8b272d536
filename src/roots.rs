//! Choosing the root articles that step groups are computed from.
use crate::analyze::WikipediaAnalysis;
use crate::graph::NameIndex;
use crate::text::string_views;
use rand::Rng;
use vstd::prelude::*;

verus! {

/// Relies on `rand::Rng::gen_range` on the thread's generator: a value in
/// `[0, n)`; it panics only when the range is empty.
#[verifier::external_body]
fn random_below(n: u32) -> (r: u32)
    requires
        n > 0,
    ensures
        r < n,
{
    rand::thread_rng().gen_range(0, n)
}

/// `count` node ids drawn uniformly at random, with repeats allowed; none
/// when the graph has no nodes.
pub fn random_roots(g: &WikipediaAnalysis, count: u32) -> (r: Vec<u32>)
    requires
        g.wf(),
    ensures
        r@.len() == if g.articles@.len() == 0 {
            0
        } else {
            count as int
        },
        forall|i: int| 0 <= i < r@.len() ==> (#[trigger] r@[i] as int) < g.articles@.len(),
{
    let n: usize = g.articles.len();
    let mut roots: Vec<u32> = Vec::new();
    if n == 0 {
        return roots;
    }
    let mut i: u32 = 0;
    while i < count
        invariant
            0 < n <= u32::MAX,
            n == g.articles@.len(),
            i <= count,
            roots@.len() == i,
            forall|k: int| 0 <= k < roots@.len() ==> (#[trigger] roots@[k] as int) < n,
        decreases count - i,
    {
        roots.push(random_below(n as u32));
        i = i + 1;
    }
    roots
}

/// The ids of those of `names` that `index` holds, in order.
pub open spec fn present_ids(index: NameIndex, names: Seq<Seq<char>>) -> Seq<u32>
    decreases names.len(),
{
    if names.len() == 0 {
        Seq::empty()
    } else {
        let prev = present_ids(index, names.drop_last());
        match index.id_of(names.last()) {
            Some(i) => prev.push(i),
            None => prev,
        }
    }
}

/// Those of `names` that `index` does not hold, in order.
pub open spec fn missing_names(index: NameIndex, names: Seq<Seq<char>>) -> Seq<Seq<char>>
    decreases names.len(),
{
    if names.len() == 0 {
        Seq::empty()
    } else {
        let prev = missing_names(index, names.drop_last());
        if index.has(names.last()) {
            prev
        } else {
            prev.push(names.last())
        }
    }
}

/// The node ids of the given names that the graph holds, in order, and the
/// names it does not hold, in order.
pub fn roots_from_names(g: &WikipediaAnalysis, names: &Vec<String>) -> (r: (Vec<u32>, Vec<String>))
    requires
        g.wf(),
    ensures
        r.0@ == present_ids(g.article_map, string_views(names@)),
        string_views(r.1@) == missing_names(g.article_map, string_views(names@)),
        forall|i: int| 0 <= i < r.0@.len() ==> (#[trigger] r.0@[i] as int) < g.articles@.len(),
{
    let ghost nv = string_views(names@);
    let mut found: Vec<u32> = Vec::new();
    let mut missing: Vec<String> = Vec::new();
    let mut j: usize = 0;
    while j < names.len()
        invariant
            g.wf(),
            nv == string_views(names@),
            j <= names@.len(),
            found@ == present_ids(g.article_map, nv.subrange(0, j as int)),
            string_views(missing@) == missing_names(g.article_map, nv.subrange(0, j as int)),
            forall|i: int| 0 <= i < found@.len() ==> (#[trigger] found@[i] as int) < g.articles@.len(),
        decreases names@.len() - j,
    {
        assert(nv[j as int] == names@[j as int]@);
        assert(nv.subrange(0, j + 1).drop_last() =~= nv.subrange(0, j as int));
        assert(nv.subrange(0, j + 1).last() == names@[j as int]@);
        let ghost mb = string_views(missing@);
        match g.article_map.get(names[j].as_str()) {
            Some(id) => {
                found.push(id);
            },
            None => {
                missing.push(names[j].clone());
                assert(string_views(missing@) =~= mb.push(names@[j as int]@));
            },
        }
        j = j + 1;
    }
    assert(nv.subrange(0, j as int) =~= nv);
    (found, missing)
}

} // verus!
