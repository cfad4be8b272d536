//! The data model shared by the builder and the analyses: articles with
//! their link lists, and the index between article names and node ids.
use vstd::hash_map::StringHashMap;
use vstd::prelude::*;

verus! {

/// Which way the link lists of a graph point.
#[derive(Clone, Copy, Debug, PartialEq, Eq, Structural)]
pub enum ParserMode {
    /// Each article lists the articles that link to it.
    IncomingLinks,
    /// Each article lists the articles that it links to.
    OutgoingLinks,
}

/// One node of the link graph.
pub struct Article {
    /// Node ids of the linked articles; whether they link to this article
    /// or from it is the graph's `ParserMode`.
    pub links: Vec<u32>,
}

/// The link lists of a sequence of articles.
pub open spec fn adjacency(articles: Seq<Article>) -> Seq<Seq<u32>> {
    articles.map_values(|a: Article| a.links@)
}

/// Every link names a node of the graph.
pub open spec fn links_in_range(adj: Seq<Seq<u32>>) -> bool {
    forall|u: int, i: int|
        0 <= u < adj.len() && 0 <= i < adj[u].len() ==> (adj[u][i] as int) < adj.len()
}

/// No link list is longer than a `u32` can count.
pub open spec fn lengths_fit(adj: Seq<Seq<u32>>) -> bool {
    forall|u: int| 0 <= u < adj.len() ==> #[trigger] adj[u].len() < u32::MAX
}

/// Sorted in increasing order with no repeats.
pub open spec fn strictly_ascending(s: Seq<u32>) -> bool {
    forall|i: int, j: int| 0 <= i < j < s.len() ==> s[i] < s[j]
}

/// Every link list of the graph is sorted with no repeats.
pub open spec fn all_strictly_ascending(adj: Seq<Seq<u32>>) -> bool {
    forall|u: int| 0 <= u < adj.len() ==> strictly_ascending(#[trigger] adj[u])
}

/// The largest number of nodes a graph may hold, so that ids and link
/// counts fit a `u32`.
pub open spec fn max_nodes() -> nat {
    (u32::MAX - 1) as nat
}

/// No two entries are equal.
pub open spec fn distinct_names(names: Seq<Seq<char>>) -> bool {
    forall|i: int, j: int| 0 <= i < j < names.len() ==> names[i] != names[j]
}

/// Maps names to dense node ids, and node ids back to names.
pub struct NameIndex {
    names: Vec<String>,
    ids: StringHashMap<u32>,
}

impl View for NameIndex {
    /// The name of each node id, in id order.
    type V = Seq<Seq<char>>;

    closed spec fn view(&self) -> Seq<Seq<char>> {
        self.names@.map_values(|s: String| s@)
    }
}

impl NameIndex {
    pub closed spec fn wf(&self) -> bool {
        &&& self.names@.len() <= max_nodes()
        &&& distinct_names(self@)
        &&& forall|i: int| 0 <= i < self@.len() ==> self.ids@.contains_key(#[trigger] self@[i])
            && self.ids@[self@[i]] == i
        &&& forall|k: Seq<char>| #[trigger]
            self.ids@.contains_key(k) ==> (self.ids@[k] as int) < self@.len() && self@[self.ids@[
                k] as int] == k
    }

    /// The node id of `name`, if it has one.
    pub open spec fn id_of(&self, name: Seq<char>) -> Option<u32> {
        if exists|i: int| 0 <= i < self@.len() && self@[i] == name {
            Some((choose|i: int| 0 <= i < self@.len() && self@[i] == name) as u32)
        } else {
            None
        }
    }

    /// Whether `name` has a node id.
    pub open spec fn has(&self, name: Seq<char>) -> bool {
        self@.contains(name)
    }

    /// An index with no names.
    pub fn new() -> (r: NameIndex)
        ensures
            r.wf(),
            r@ == Seq::<Seq<char>>::empty(),
    {
        let r = NameIndex { names: Vec::new(), ids: StringHashMap::new() };
        assert(r@ =~= Seq::<Seq<char>>::empty());
        r
    }

    /// Number of names, which is the number of node ids.
    pub fn len(&self) -> (r: usize)
        ensures
            r == self@.len(),
    {
        self.names.len()
    }

    /// The node id of `name`.
    pub fn get(&self, name: &str) -> (r: Option<u32>)
        requires
            self.wf(),
        ensures
            r == self.id_of(name@),
            r matches Some(i) ==> (i as int) < self@.len() && self@[i as int] == name@,
            r is None <==> !self.has(name@),
    {
        proof {
            self.lemma_id_of(name@);
        }
        match self.ids.get(name) {
            Some(i) => Some(*i),
            None => None,
        }
    }

    /// The name of node `id`.
    pub fn name(&self, id: u32) -> (r: &String)
        requires
            (id as int) < self@.len(),
        ensures
            r@ == self@[id as int],
    {
        &self.names[id as usize]
    }

    /// Gives `name` the next node id, unless it already has one; returns the
    /// new id, or `None` when the name was present or no id is left.
    pub fn push(&mut self, name: String) -> (r: Option<u32>)
        requires
            old(self).wf(),
        ensures
            final(self).wf(),
            old(self).has(name@) || old(self)@.len() >= max_nodes() ==> r is None && final(self)@
                == old(self)@,
            !old(self).has(name@) && old(self)@.len() < max_nodes() ==> r == Some(
                old(self)@.len() as u32,
            ) && final(self)@ == old(self)@.push(name@),
    {
        if self.ids.contains_key(name.as_str()) {
            proof {
                self.lemma_id_of(name@);
            }
            return None;
        }
        proof {
            self.lemma_id_of(name@);
        }
        if self.names.len() >= (u32::MAX - 1) as usize {
            return None;
        }
        let id: u32 = self.names.len() as u32;
        let ghost old_view = self@;
        self.ids.insert(name.clone(), id);
        self.names.push(name);
        proof {
            assert(self@ =~= old_view.push(name@));
            assert forall|i: int| 0 <= i < self@.len() implies self.ids@.contains_key(
                #[trigger] self@[i],
            ) && self.ids@[self@[i]] == i by {
                if i < old_view.len() {
                    assert(old_view[i] != name@);
                }
            }
        }
        Some(id)
    }

    /// What the hash map says of a name agrees with the list of names.
    proof fn lemma_id_of(&self, name: Seq<char>)
        requires
            self.wf(),
        ensures
            self.ids@.contains_key(name) <==> self.has(name),
            self.ids@.contains_key(name) ==> self.id_of(name) == Some(self.ids@[name]),
            !self.ids@.contains_key(name) ==> self.id_of(name) is None,
    {
        if self.ids@.contains_key(name) {
            let i = self.ids@[name] as int;
            assert(self@[i] == name);
            let c = choose|j: int| 0 <= j < self@.len() && self@[j] == name;
            assert(c == i);
        } else {
            assert forall|i: int| 0 <= i < self@.len() implies self@[i] != name by {
                assert(self.ids@.contains_key(self@[i]));
            }
        }
    }

    /// A well-formed index has room for no more than the largest number of nodes.
    pub proof fn lemma_len_bound(&self)
        requires
            self.wf(),
        ensures
            self@.len() <= max_nodes(),
    {
    }

    /// No name has two ids.
    pub proof fn lemma_distinct(&self)
        requires
            self.wf(),
        ensures
            distinct_names(self@),
    {
    }

    /// Reading a name's id and then that id's name gives the name back.
    pub proof fn lemma_reverse_inverts(&self, name: Seq<char>)
        requires
            self.wf(),
            self.has(name),
        ensures
            self.id_of(name) matches Some(i) && (i as int) < self@.len() && self@[i as int]
                == name,
    {
        self.lemma_id_of(name);
    }
}

} // verus!
