//! Building the link graph from the pages of a dump: a first pass admits
//! articles and records redirects, a second pass adds the links.
use crate::analyze::WikipediaAnalysis;
use crate::graph::{
    adjacency, all_strictly_ascending, lengths_fit, links_in_range, max_nodes, strictly_ascending,
    Article, NameIndex, ParserMode,
};
use crate::patterns::{link_text, regex_group_captures, text_targets, LinkPatterns, WIKI_LINK};
use crate::redirect::{redirect_id, resolve_redirects, RedirectTable};
use crate::text::{
    capitalize, capitalized, has_infix, has_prefix, is_admissible, is_valid_title, lemma_push_contains,
    link_target, link_target_of, str_contains, str_starts_with, string_views,
};
use vstd::hash_map::StringHashMap;
use vstd::prelude::*;
use vstd::seq_lib::to_multiset_contains;

verus! {

/// Why a graph could not be built.
#[derive(Clone, Copy, Debug, PartialEq, Eq, Structural)]
pub enum BuildError {
    /// More articles than node ids can number.
    Overflow,
}

/// Names of pages to leave out of the graph.
pub struct IgnoreSet {
    names: StringHashMap<bool>,
}

impl View for IgnoreSet {
    type V = Set<Seq<char>>;

    closed spec fn view(&self) -> Set<Seq<char>> {
        self.names@.dom()
    }
}

impl IgnoreSet {
    /// An empty set.
    pub fn new() -> (r: IgnoreSet)
        ensures
            r@ == Set::<Seq<char>>::empty(),
    {
        let r = IgnoreSet { names: StringHashMap::new() };
        assert(r@ =~= Set::<Seq<char>>::empty());
        r
    }

    /// Adds a name as read from a list, one name per line: its first letter is
    /// put in upper case.
    pub fn insert_line(&mut self, line: &str)
        ensures
            final(self)@ == old(self)@.insert(capitalized(line@)),
    {
        let name = capitalize(line);
        self.names.insert(name, true);
        assert(self@ =~= old(self)@.insert(capitalized(line@)));
    }

    /// Whether `name` is in the set.
    pub fn contains(&self, name: &str) -> (r: bool)
        ensures
            r == self@.contains(name@),
    {
        self.names.contains_key(name)
    }
}

/// A body that starts with a redirect marker and holds a wiki link.
pub open spec fn is_redirect_body(body: Seq<char>) -> bool {
    (has_prefix(body, "#redirect"@) || has_prefix(body, "#REDIRECT"@)) && regex_group_captures(
        WIKI_LINK@,
        body,
    ).len() > 0
}

/// Where a redirect body points: the target of its first wiki link.
pub open spec fn redirect_target(body: Seq<char>) -> Seq<char> {
    link_target(regex_group_captures(WIKI_LINK@, body)[0])
}

/// A body that marks a disambiguation page.
pub open spec fn is_disambiguation(body: Seq<char>) -> bool {
    has_infix(body, "{{disamb"@) || has_infix(body, "{{Disamb"@) || has_infix(body, "{{dab}}"@)
}

/// The page becomes an article: it is not ignored, not a redirect and not a
/// disambiguation page.
pub open spec fn admits(ignore: Set<Seq<char>>, name: Seq<char>, body: Seq<char>) -> bool {
    !ignore.contains(name) && !is_redirect_body(body) && !is_disambiguation(body)
}

/// The pages as pairs of character sequences.
pub open spec fn page_views(pages: Seq<(String, String)>) -> Seq<(Seq<char>, Seq<char>)> {
    pages.map_values(|p: (String, String)| (p.0@, p.1@))
}

/// The names of the articles that the first `upto` pages admit, each once,
/// in order of first admission.
pub open spec fn admitted_names(
    ignore: Set<Seq<char>>,
    pages: Seq<(Seq<char>, Seq<char>)>,
    upto: int,
) -> Seq<Seq<char>>
    decreases upto,
{
    if upto <= 0 {
        Seq::empty()
    } else {
        let prev = admitted_names(ignore, pages, upto - 1);
        let page = pages[upto - 1];
        if admits(ignore, page.0, page.1) && !prev.contains(page.0) {
            prev.push(page.0)
        } else {
            prev
        }
    }
}

/// The redirects that the first `upto` pages record: a page that is not
/// ignored, is a redirect, and points to an admissible name, unless its name
/// already has an entry.
pub open spec fn redirect_entries(
    ignore: Set<Seq<char>>,
    pages: Seq<(Seq<char>, Seq<char>)>,
    upto: int,
) -> Map<Seq<char>, Seq<char>>
    decreases upto,
{
    if upto <= 0 {
        Map::empty()
    } else {
        let prev = redirect_entries(ignore, pages, upto - 1);
        let page = pages[upto - 1];
        if records_redirect(ignore, page.0, page.1) && !prev.contains_key(page.0) {
            prev.insert(page.0, redirect_target(page.1))
        } else {
            prev
        }
    }
}

/// How many redirects the first `upto` pages record.
pub open spec fn redirect_count(
    ignore: Set<Seq<char>>,
    pages: Seq<(Seq<char>, Seq<char>)>,
    upto: int,
) -> nat
    decreases upto,
{
    if upto <= 0 {
        0
    } else {
        let prev = redirect_entries(ignore, pages, upto - 1);
        let page = pages[upto - 1];
        redirect_count(ignore, pages, upto - 1) + if records_redirect(ignore, page.0, page.1)
            && !prev.contains_key(page.0) {
            1nat
        } else {
            0nat
        }
    }
}

/// The page is a redirect that the first pass records.
pub open spec fn records_redirect(ignore: Set<Seq<char>>, name: Seq<char>, body: Seq<char>) -> bool {
    !ignore.contains(name) && is_redirect_body(body) && is_admissible(redirect_target(body))
}

/// Each redirect name with the id its chain ends at.
pub open spec fn redirect_index(
    table: Map<Seq<char>, Seq<char>>,
    size: nat,
    names: NameIndex,
) -> Map<Seq<char>, u32> {
    Map::new(
        |k: Seq<char>| redirect_id(table, size, names, k) is Some,
        |k: Seq<char>| redirect_id(table, size, names, k)->0,
    )
}

/// `x` is in the link list of `u` because of one of the first `upto` pages,
/// each read from its link text.
pub open spec fn built_edge(
    mode: ParserMode,
    names: NameIndex,
    redirect_ids: Map<Seq<char>, u32>,
    pages: Seq<(Seq<char>, Seq<char>)>,
    upto: int,
    u: u32,
    x: u32,
) -> bool {
    exists|j: int|
        0 <= j < upto && names.has(pages[j].0) && #[trigger] page_edge(
            mode,
            names,
            redirect_ids,
            names.id_of(pages[j].0)->0,
            link_text(pages[j].1),
            u,
            x,
        )
}

/// `g` is the graph that the pages give with this ignore set and orientation:
/// well formed, link lists sorted without repeats, the admitted names in
/// order, and exactly the links that the pages' link texts give.
pub open spec fn is_build_of(
    g: WikipediaAnalysis,
    ignore: Set<Seq<char>>,
    pages: Seq<(Seq<char>, Seq<char>)>,
    mode: ParserMode,
) -> bool {
    &&& g.wf()
    &&& all_strictly_ascending(g.adj())
    &&& g.article_map@ == admitted_names(ignore, pages, pages.len() as int)
    &&& forall|u: u32, x: u32|
        (u as int) < g.adj().len() ==> (#[trigger] g.adj()[u as int].contains(x) <==> built_edge(
            mode,
            g.article_map,
            redirect_index(
                redirect_entries(ignore, pages, pages.len() as int),
                redirect_count(ignore, pages, pages.len() as int),
                g.article_map,
            ),
            pages,
            pages.len() as int,
            u,
            x,
        ))
}

/// What a link target resolves to: the article of that name, else the
/// article its redirect chain ends at.
pub open spec fn resolve_target(
    names: NameIndex,
    redirect_ids: Map<Seq<char>, u32>,
    t: Seq<char>,
) -> Option<u32> {
    if names.has(t) {
        names.id_of(t)
    } else if redirect_ids.contains_key(t) {
        Some(redirect_ids[t])
    } else {
        None
    }
}

/// The links that a page with node id `source` and link text `text` adds:
/// `x` joins the link list of `u`.
pub open spec fn page_edge(
    mode: ParserMode,
    names: NameIndex,
    redirect_ids: Map<Seq<char>, u32>,
    source: u32,
    text: Seq<char>,
    u: u32,
    x: u32,
) -> bool {
    match mode {
        ParserMode::IncomingLinks => x == source && exists|t: Seq<char>|
            #[trigger] text_targets(text).contains(t) && resolve_target(names, redirect_ids, t)
                == Some(u),
        ParserMode::OutgoingLinks => u == source && exists|t: Seq<char>|
            #[trigger] text_targets(text).contains(t) && resolve_target(names, redirect_ids, t)
                == Some(x),
    }
}

/// The links that the first `n` of the targets `tv` add for a page with
/// node id `source`: `x` joins the link list of `u`.
pub open spec fn targets_edge(
    mode: ParserMode,
    names: NameIndex,
    redirect_ids: Map<Seq<char>, u32>,
    source: u32,
    tv: Seq<Seq<char>>,
    n: int,
    u: u32,
    x: u32,
) -> bool {
    match mode {
        ParserMode::IncomingLinks => x == source && exists|k: int|
            0 <= k < n && resolve_target(names, redirect_ids, #[trigger] tv[k]) == Some(u),
        ParserMode::OutgoingLinks => u == source && exists|k: int|
            0 <= k < n && resolve_target(names, redirect_ids, #[trigger] tv[k]) == Some(x),
    }
}

proof fn lemma_targets_edge_step(
    mode: ParserMode,
    names: NameIndex,
    redirect_ids: Map<Seq<char>, u32>,
    source: u32,
    tv: Seq<Seq<char>>,
    i: int,
)
    requires
        0 <= i < tv.len(),
    ensures
        forall|u: u32, x: u32|
            #[trigger] targets_edge(mode, names, redirect_ids, source, tv, i + 1, u, x) <==> (
            targets_edge(mode, names, redirect_ids, source, tv, i, u, x) || match mode {
                ParserMode::IncomingLinks => x == source && resolve_target(names, redirect_ids, tv[i]) == Some(u),
                ParserMode::OutgoingLinks => u == source && resolve_target(names, redirect_ids, tv[i]) == Some(x),
            }),
{
    assert forall|u: u32, x: u32|
        #[trigger] targets_edge(mode, names, redirect_ids, source, tv, i + 1, u, x) implies (
        targets_edge(mode, names, redirect_ids, source, tv, i, u, x) || match mode {
            ParserMode::IncomingLinks => x == source && resolve_target(names, redirect_ids, tv[i]) == Some(u),
            ParserMode::OutgoingLinks => u == source && resolve_target(names, redirect_ids, tv[i]) == Some(x),
        }) by {
        match mode {
            ParserMode::IncomingLinks => {
                let k = choose|k: int| 0 <= k < i + 1 && resolve_target(names, redirect_ids, #[trigger] tv[k]) == Some(u);
            },
            ParserMode::OutgoingLinks => {
                let k = choose|k: int| 0 <= k < i + 1 && resolve_target(names, redirect_ids, #[trigger] tv[k]) == Some(x);
            },
        }
    }
}

proof fn lemma_targets_edge_all(
    mode: ParserMode,
    names: NameIndex,
    redirect_ids: Map<Seq<char>, u32>,
    source: u32,
    tv: Seq<Seq<char>>,
    text: Seq<char>,
    u: u32,
    x: u32,
)
    requires
        forall|t: Seq<char>| #[trigger] tv.contains(t) <==> text_targets(text).contains(t),
    ensures
        targets_edge(mode, names, redirect_ids, source, tv, tv.len() as int, u, x) <==> page_edge(
            mode,
            names,
            redirect_ids,
            source,
            text,
            u,
            x,
        ),
{
    match mode {
        ParserMode::IncomingLinks => {
            if targets_edge(mode, names, redirect_ids, source, tv, tv.len() as int, u, x) {
                let k = choose|k: int| 0 <= k < tv.len() && resolve_target(names, redirect_ids, #[trigger] tv[k]) == Some(u);
                assert(tv.contains(tv[k]));
            }
            if page_edge(mode, names, redirect_ids, source, text, u, x) {
                let t = choose|t: Seq<char>| #[trigger] text_targets(text).contains(t) && resolve_target(names, redirect_ids, t) == Some(u);
                assert(tv.contains(t));
                let k = choose|k: int| 0 <= k < tv.len() && tv[k] == t;
                assert(resolve_target(names, redirect_ids, tv[k]) == Some(u));
            }
        },
        ParserMode::OutgoingLinks => {
            if targets_edge(mode, names, redirect_ids, source, tv, tv.len() as int, u, x) {
                let k = choose|k: int| 0 <= k < tv.len() && resolve_target(names, redirect_ids, #[trigger] tv[k]) == Some(x);
                assert(tv.contains(tv[k]));
            }
            if page_edge(mode, names, redirect_ids, source, text, u, x) {
                let t = choose|t: Seq<char>| #[trigger] text_targets(text).contains(t) && resolve_target(names, redirect_ids, t) == Some(x);
                assert(tv.contains(t));
                let k = choose|k: int| 0 <= k < tv.len() && tv[k] == t;
                assert(resolve_target(names, redirect_ids, tv[k]) == Some(x));
            }
        },
    }
}

/// Relies on `slice::sort_unstable`: the same entries in increasing order.
#[verifier::external_body]
fn sort_ids(v: &mut Vec<u32>)
    ensures
        final(v)@.to_multiset() == old(v)@.to_multiset(),
        forall|i: int, j: int| 0 <= i < j < final(v)@.len() ==> final(v)@[i] <= final(v)@[j],
{
    v.sort_unstable();
}

/// The entries of `v`, once each, in increasing order.
pub fn sorted_unique(v: &Vec<u32>) -> (r: Vec<u32>)
    ensures
        strictly_ascending(r@),
        forall|x: u32| #[trigger] r@.contains(x) <==> v@.contains(x),
{
    let mut sorted: Vec<u32> = Vec::new();
    let mut i: usize = 0;
    while i < v.len()
        invariant
            i <= v@.len(),
            sorted@ == v@.subrange(0, i as int),
        decreases v@.len() - i,
    {
        sorted.push(v[i]);
        i = i + 1;
        assert(sorted@ =~= v@.subrange(0, i as int));
    }
    assert(v@.subrange(0, v@.len() as int) =~= v@);
    let ghost unsorted = sorted@;
    sort_ids(&mut sorted);
    proof {
        assert forall|x: u32| sorted@.contains(x) <==> v@.contains(x) by {
            to_multiset_contains(sorted@, x);
            to_multiset_contains(unsorted, x);
        }
    }
    let mut r: Vec<u32> = Vec::new();
    let mut i: usize = 0;
    while i < sorted.len()
        invariant
            i <= sorted@.len(),
            forall|a: int, b: int| 0 <= a < b < sorted@.len() ==> sorted@[a] <= sorted@[b],
            strictly_ascending(r@),
            i > 0 ==> r@.len() > 0 && r@[r@.len() - 1] == sorted@[i - 1],
            i == 0 ==> r@.len() == 0,
            forall|x: u32| #[trigger] r@.contains(x) <==> sorted@.subrange(0, i as int).contains(x),
        decreases sorted@.len() - i,
    {
        let x = sorted[i];
        let ghost before = r@;
        proof {
            assert(sorted@.subrange(0, i + 1) =~= sorted@.subrange(0, i as int).push(x));
            lemma_push_contains(sorted@.subrange(0, i as int), x);
        }
        if r.len() == 0 || r[r.len() - 1] != x {
            r.push(x);
            proof {
                lemma_push_contains(before, x);
                assert forall|a: int, b: int| 0 <= a < b < r@.len() implies r@[a] < r@[b] by {
                    if b == r@.len() - 1 && a < b {
                        if a < before.len() - 1 {
                            assert(before[a] < before[before.len() - 1]);
                        }
                    }
                }
            }
        }
        i = i + 1;
    }
    assert(sorted@.subrange(0, sorted@.len() as int) =~= sorted@);
    r
}

/// A sorted list without repeats of nodes below `n` has at most `n` entries.
pub proof fn lemma_ascending_len(s: Seq<u32>, n: nat)
    requires
        strictly_ascending(s),
        forall|i: int| 0 <= i < s.len() ==> (s[i] as nat) < n,
    ensures
        s.len() <= n,
{
    assert forall|i: int| 0 <= i < s.len() implies s[i] >= i by {
        lemma_ascending_at_least(s, i);
    }
    if s.len() > n {
        assert(s[n as int] >= n);
    }
}

proof fn lemma_ascending_at_least(s: Seq<u32>, i: int)
    requires
        strictly_ascending(s),
        0 <= i < s.len(),
    ensures
        s[i] >= i,
    decreases i,
{
    if i > 0 {
        lemma_ascending_at_least(s, i - 1);
    }
}

/// The state of a graph under construction.
pub struct GraphBuilder {
    ignore: IgnoreSet,
    mode: ParserMode,
    names: NameIndex,
    articles: Vec<Article>,
    redirects: RedirectTable,
    redirect_ids: StringHashMap<u32>,
}

impl GraphBuilder {
    /// Article names so far, in id order.
    pub closed spec fn names(&self) -> NameIndex {
        self.names
    }

    /// Link lists so far, in id order.
    pub closed spec fn links(&self) -> Seq<Seq<u32>> {
        adjacency(self.articles@)
    }

    /// Redirect names and their targets.
    pub closed spec fn redirects(&self) -> RedirectTable {
        self.redirects
    }

    /// Redirect names resolved to node ids.
    pub closed spec fn redirect_ids(&self) -> Map<Seq<char>, u32> {
        self.redirect_ids@
    }

    /// The names left out.
    pub closed spec fn ignored(&self) -> Set<Seq<char>> {
        self.ignore@
    }

    /// Which way links are recorded.
    pub closed spec fn mode(&self) -> ParserMode {
        self.mode
    }

    /// The page is admitted and its name is new: it needs a new node id.
    pub open spec fn opens_article(&self, name: Seq<char>, body: Seq<char>) -> bool {
        admits(self.ignored(), name, body) && !self.names().has(name)
    }

    /// The page is a redirect that the first pass records, and its name has
    /// no entry yet.
    pub open spec fn adds_redirect(&self, name: Seq<char>, body: Seq<char>) -> bool {
        records_redirect(self.ignored(), name, body) && !self.redirects()@.contains_key(name)
    }

    pub closed spec fn wf(&self) -> bool {
        &&& self.names.wf()
        &&& self.redirects.wf()
        &&& self.articles@.len() == self.names@.len()
        &&& links_in_range(self.links())
        &&& forall|k: Seq<char>|
            #[trigger] self.redirect_ids@.contains_key(k) ==> (self.redirect_ids@[k] as int)
                < self.names@.len()
    }

    /// A builder with no pages yet.
    pub fn new(ignore: IgnoreSet, mode: ParserMode) -> (r: GraphBuilder)
        ensures
            r.wf(),
            r.names()@ == Seq::<Seq<char>>::empty(),
            r.links() == Seq::<Seq<u32>>::empty(),
            r.redirects()@ == Map::<Seq<char>, Seq<char>>::empty(),
            r.redirects().size() == 0,
            r.redirect_ids() == Map::<Seq<char>, u32>::empty(),
            r.ignored() == ignore@,
            r.mode() == mode,
    {
        let r = GraphBuilder {
            ignore,
            mode,
            names: NameIndex::new(),
            articles: Vec::new(),
            redirects: RedirectTable::new(),
            redirect_ids: StringHashMap::new(),
        };
        assert(r.links() =~= Seq::<Seq<u32>>::empty());
        r
    }

    /// First pass, one page: records a redirect, admits an article, or
    /// leaves the page out. Fails only when a new article would need an id
    /// beyond the largest.
    pub fn admit_page(&mut self, name: String, body: &str, patterns: &LinkPatterns) -> (r: Result<(), BuildError>)
        requires
            old(self).wf(),
            patterns.wf(),
        ensures
            final(self).wf(),
            final(self).ignored() == old(self).ignored(),
            final(self).mode() == old(self).mode(),
            final(self).redirect_ids() == old(self).redirect_ids(),
            final(self).links().subrange(0, old(self).links().len() as int) == old(self).links(),
            final(self).names()@ == (if old(self).opens_article(name@, body@) && old(self).names()@.len()
                < max_nodes() {
                old(self).names()@.push(name@)
            } else {
                old(self).names()@
            }),
            final(self).links() == (if old(self).opens_article(name@, body@) && old(self).names()@.len()
                < max_nodes() {
                old(self).links().push(Seq::empty())
            } else {
                old(self).links()
            }),
            final(self).redirects()@ == (if old(self).adds_redirect(name@, body@) {
                old(self).redirects()@.insert(name@, redirect_target(body@))
            } else {
                old(self).redirects()@
            }),
            final(self).redirects().size() == old(self).redirects().size() + (if old(self).adds_redirect(
                name@,
                body@,
            ) {
                1int
            } else {
                0int
            }),
            r is Err <==> old(self).opens_article(name@, body@) && old(self).names()@.len() >= max_nodes(),
    {
        if self.ignore.contains(name.as_str()) {
            proof {
                self.lemma_links_whole();
            }
            return Ok(());
        }
        let marked = str_starts_with(body, "#redirect") || str_starts_with(body, "#REDIRECT");
        let disambiguation = str_contains(body, "{{disamb") || str_contains(body, "{{Disamb")
            || str_contains(body, "{{dab}}");
        let links = if marked {
            patterns.wiki_link_captures(body)
        } else {
            Vec::new()
        };
        proof {
            assert(string_views(links@).len() == links@.len());
        }
        if marked && links.len() > 0 {
            assert(links@[0]@ == regex_group_captures(WIKI_LINK@, body@)[0]);
            let target = link_target_of(links[0].as_str());
            if is_valid_title(target.as_str()) {
                self.redirects.insert(name, target);
            }
            proof {
                self.lemma_links_whole();
            }
            return Ok(());
        }
        assert(!is_redirect_body(body@));
        if disambiguation {
            proof {
                self.lemma_links_whole();
            }
            return Ok(());
        }
        if self.names.get(name.as_str()).is_some() {
            proof {
                self.lemma_links_whole();
            }
            return Ok(());
        }
        let ghost old_links = self.links();
        let ghost old_names = self.names;
        let ghost name_v = name@;
        assert(admits(self.ignore@, name_v, body@));
        assert(!old_names.has(name_v));
        match self.names.push(name) {
            Some(_) => {
                self.articles.push(Article { links: Vec::new() });
                proof {
                    assert(self.names@ == old_names@.push(name_v));
                    assert forall|u: int, i: int| 0 <= u < self.links().len() && 0 <= i < self.links()[u].len() implies (self.links()[u][i] as int) < self.links().len() by {
                        assert(self.links()[u] == old_links[u]);
                    }
                    assert(self.links() =~= old_links.push(Seq::empty()));
                    assert(self.links().subrange(0, old_links.len() as int) =~= old_links);
                }
                Ok(())
            },
            None => {
                proof {
                    self.lemma_links_whole();
                }
                Err(BuildError::Overflow)
            },
        }
    }

    /// Between the passes: resolves each redirect to the article its chain
    /// ends at.
    pub fn resolve(&mut self)
        requires
            old(self).wf(),
        ensures
            final(self).wf(),
            final(self).names() == old(self).names(),
            final(self).links() == old(self).links(),
            final(self).redirects() == old(self).redirects(),
            final(self).ignored() == old(self).ignored(),
            final(self).mode() == old(self).mode(),
            forall|k: Seq<char>|
                #[trigger] final(self).redirect_ids().contains_key(k) <==> redirect_id(
                    old(self).redirects()@,
                    old(self).redirects().size(),
                    old(self).names(),
                    k,
                ) is Some,
            forall|k: Seq<char>|
                #[trigger] final(self).redirect_ids().contains_key(k) ==> Some(final(self).redirect_ids()[k])
                    == redirect_id(old(self).redirects()@, old(self).redirects().size(), old(self).names(), k),
    {
        self.redirect_ids = resolve_redirects(&self.names, &self.redirects);
    }

    /// Where link target `t` leads.
    fn resolve_target_exec(&self, t: &str) -> (r: Option<u32>)
        requires
            self.wf(),
        ensures
            r == resolve_target(self.names, self.redirect_ids@, t@),
            r matches Some(d) ==> (d as int) < self.names@.len(),
    {
        match self.names.get(t) {
            Some(id) => Some(id),
            None => match self.redirect_ids.get(t) {
                Some(id) => Some(*id),
                None => None,
            },
        }
    }

    /// Appends `x` to the link list of `u`.
    fn push_link(&mut self, u: u32, x: u32)
        requires
            old(self).wf(),
            (u as int) < old(self).names@.len(),
            (x as int) < old(self).names@.len(),
        ensures
            final(self).wf(),
            final(self).names == old(self).names,
            final(self).redirects == old(self).redirects,
            final(self).redirect_ids == old(self).redirect_ids,
            final(self).ignore == old(self).ignore,
            final(self).mode == old(self).mode,
            final(self).links() == old(self).links().update(u as int, old(self).links()[u as int].push(x)),
    {
        let ghost old_links = self.links();
        self.articles[u as usize].links.push(x);
        proof {
            assert(self.links() =~= old_links.update(u as int, old_links[u as int].push(x)));
            assert forall|v: int, i: int| 0 <= v < self.links().len() && 0 <= i < self.links()[v].len() implies (self.links()[v][i] as int) < self.links().len() by {
                if v == u && i == old_links[v].len() {
                } else {
                    assert(self.links()[v][i] == old_links[v][i]);
                }
            }
        }
    }

    /// Second pass, core: adds the links that `text`, the link text of the
    /// article with id `source`, holds.
    pub fn add_links_from_text(&mut self, source: u32, text: &str, patterns: &LinkPatterns)
        requires
            old(self).wf(),
            patterns.wf(),
            (source as int) < old(self).names()@.len(),
        ensures
            final(self).wf(),
            final(self).names() == old(self).names(),
            final(self).redirects() == old(self).redirects(),
            final(self).redirect_ids() == old(self).redirect_ids(),
            final(self).ignored() == old(self).ignored(),
            final(self).mode() == old(self).mode(),
            final(self).links().len() == old(self).links().len(),
            forall|u: u32, x: u32|
                (u as int) < old(self).links().len() ==> (#[trigger] final(self).links()[u as int].contains(x) <==> (
                old(self).links()[u as int].contains(x) || page_edge(
                    old(self).mode(),
                    old(self).names(),
                    old(self).redirect_ids(),
                    source,
                    text@,
                    u,
                    x,
                ))),
    {
        let targets = patterns.link_targets(text);
        let ghost tv = string_views(targets@);
        let ghost old_links = self.links();
        let ghost names = self.names;
        let ghost rids = self.redirect_ids@;
        let ghost mode = self.mode;
        assert(tv.len() == targets@.len());
        let mut i: usize = 0;
        while i < targets.len()
            invariant
                self.wf(),
                self.names == names,
                self.redirect_ids@ == rids,
                self.mode == mode,
                self.redirects == old(self).redirects,
                self.ignore == old(self).ignore,
                (source as int) < names@.len(),
                tv == string_views(targets@),
                i <= targets@.len(),
                self.links().len() == old_links.len(),
                forall|u: u32, x: u32|
                    (u as int) < old_links.len() ==> (#[trigger] self.links()[u as int].contains(x) <==> (
                    old_links[u as int].contains(x) || targets_edge(mode, names, rids, source, tv, i as int, u, x))),
            decreases targets@.len() - i,
        {
            assert(targets@[i as int]@ == tv[i as int]);
            let dest = self.resolve_target_exec(targets[i].as_str());
            let ghost before = self.links();
            proof {
                lemma_targets_edge_step(mode, names, rids, source, tv, i as int);
            }
            match dest {
                Some(d) => {
                    let (pu, px) = match self.mode {
                        ParserMode::IncomingLinks => (d, source),
                        ParserMode::OutgoingLinks => (source, d),
                    };
                    self.push_link(pu, px);
                    proof {
                        lemma_push_contains(before[pu as int], px);
                        assert forall|u: u32, y: u32| (u as int) < old_links.len() implies (#[trigger] self.links()[u as int].contains(y) <==> (
                            old_links[u as int].contains(y) || targets_edge(mode, names, rids, source, tv, i + 1, u, y))) by {
                            if u == pu {
                                assert(self.links()[u as int] == before[pu as int].push(px));
                            } else {
                                assert(self.links()[u as int] == before[u as int]);
                            }
                        }
                    }
                },
                None => {},
            }
            i = i + 1;
        }
        proof {
            assert forall|u: u32, x: u32| (u as int) < old_links.len() implies (#[trigger] self.links()[u as int].contains(x) <==> (
                old_links[u as int].contains(x) || page_edge(mode, names, rids, source, text@, u, x))) by {
                lemma_targets_edge_all(mode, names, rids, source, tv, text@, u, x);
            }
        }
    }

    /// Second pass, one page: adds the links of the page's link text (what
    /// follows its infobox), when the page is an article.
    pub fn add_page_links(&mut self, name: &str, body: &str, patterns: &LinkPatterns)
        requires
            old(self).wf(),
            patterns.wf(),
        ensures
            final(self).wf(),
            final(self).names() == old(self).names(),
            final(self).redirects() == old(self).redirects(),
            final(self).redirect_ids() == old(self).redirect_ids(),
            final(self).ignored() == old(self).ignored(),
            final(self).mode() == old(self).mode(),
            final(self).links().len() == old(self).links().len(),
            !old(self).names().has(name@) ==> final(self).links() == old(self).links(),
            old(self).names().has(name@) ==> forall|u: u32, x: u32|
                (u as int) < old(self).links().len() ==> (#[trigger] final(self).links()[u as int].contains(x) <==> (
                old(self).links()[u as int].contains(x) || page_edge(
                    old(self).mode(),
                    old(self).names(),
                    old(self).redirect_ids(),
                    old(self).names().id_of(name@)->0,
                    link_text(body@),
                    u,
                    x,
                ))),
    {
        match self.names.get(name) {
            Some(source) => {
                let text = patterns.text_after_infobox(body);
                self.add_links_from_text(source, text, patterns);
            },
            None => {},
        }
    }

    /// Ends the build: every link list sorted, without repeats.
    pub fn finish(self) -> (r: WikipediaAnalysis)
        requires
            self.wf(),
        ensures
            r.wf(),
            all_strictly_ascending(r.adj()),
            r.article_map == self.names(),
            r.adj().len() == self.links().len(),
            forall|u: int, x: u32| 0 <= u < r.adj().len() ==> (#[trigger] r.adj()[u].contains(x) <==> self.links()[u].contains(x)),
    {
        let ghost old_links = self.links();
        let n: usize = self.articles.len();
        proof {
            self.names.lemma_len_bound();
        }
        let mut articles: Vec<Article> = Vec::new();
        let mut i: usize = 0;
        while i < n
            invariant
                self.wf(),
                n == old_links.len(),
                old_links == self.links(),
                i <= n,
                articles@.len() == i,
                forall|u: int| 0 <= u < i ==> strictly_ascending(#[trigger] adjacency(articles@)[u]),
                forall|u: int, x: u32| 0 <= u < i ==> (#[trigger] adjacency(articles@)[u].contains(x) <==> old_links[u].contains(x)),
            decreases n - i,
        {
            let links = sorted_unique(&self.articles[i].links);
            assert(self.articles@[i as int].links@ == old_links[i as int]);
            let ghost before = articles@;
            articles.push(Article { links });
            proof {
                assert forall|u: int| 0 <= u < i + 1 implies adjacency(articles@)[u] == if u < i { adjacency(before)[u] } else { links@ } by {
                }
            }
            i = i + 1;
        }
        let r = WikipediaAnalysis { article_map: self.names, articles };
        proof {
            let adj = r.adj();
            assert forall|u: int, j: int| 0 <= u < adj.len() && 0 <= j < adj[u].len() implies (adj[u][j] as int) < adj.len() by {
                assert(adj[u].contains(adj[u][j]));
                assert(old_links[u].contains(adj[u][j]));
                let k = choose|k: int| 0 <= k < old_links[u].len() && old_links[u][k] == adj[u][j];
            }
            assert forall|u: int| 0 <= u < adj.len() implies #[trigger] adj[u].len() < u32::MAX by {
                assert forall|j: int| 0 <= j < adj[u].len() implies (adj[u][j] as nat) < adj.len() by {
                    assert(adj[u].contains(adj[u][j]));
                    assert(old_links[u].contains(adj[u][j]));
                    let k = choose|k: int| 0 <= k < old_links[u].len() && old_links[u][k] == adj[u][j];
                }
                lemma_ascending_len(adj[u], adj.len());
            }
        }
        r
    }

    /// The link lists are their own prefix of full length.
    proof fn lemma_links_whole(&self)
        ensures
            self.links().subrange(0, self.links().len() as int) == self.links(),
    {
        assert(self.links().subrange(0, self.links().len() as int) =~= self.links());
    }
}

/// Builds the graph from the pages of a dump, each a canonical admissible
/// title with its body: the admission pass, the redirect closure, the link
/// pass, and the final sorting. Fails only when the articles outnumber the
/// node ids.
pub fn build_from_pages(
    pages: &Vec<(String, String)>,
    ignore: IgnoreSet,
    mode: ParserMode,
    patterns: &LinkPatterns,
) -> (r: Result<WikipediaAnalysis, BuildError>)
    requires
        patterns.wf(),
    ensures
        r is Err <==> admitted_names(ignore@, page_views(pages@), pages@.len() as int).len() > max_nodes(),
        r matches Ok(g) ==> is_build_of(g, ignore@, page_views(pages@), mode),
{
    let ghost ig = ignore@;
    let ghost pv = page_views(pages@);
    let mut builder = GraphBuilder::new(ignore, mode);
    let n: usize = pages.len();
    let mut i: usize = 0;
    while i < n
        invariant
            patterns.wf(),
            builder.wf(),
            builder.ignored() == ig,
            builder.mode() == mode,
            ig == ignore@,
            pv == page_views(pages@),
            n == pages@.len(),
            i <= n,
            builder.names()@ == admitted_names(ig, pv, i as int),
            builder.redirects()@ == redirect_entries(ig, pv, i as int),
            builder.redirects().size() == redirect_count(ig, pv, i as int),
            forall|u: int| 0 <= u < builder.links().len() ==> (#[trigger] builder.links()[u]).len() == 0,
        decreases n - i,
    {
        assert(pv[i as int] == (pages@[i as int].0@, pages@[i as int].1@));
        let name = pages[i].0.clone();
        assert(name@ == pv[i as int].0);
        proof {
            builder.names().lemma_len_bound();
        }
        let ghost before = builder.links();
        match builder.admit_page(name, pages[i].1.as_str(), patterns) {
            Ok(()) => {},
            Err(e) => {
                proof {
                    assert(admitted_names(ig, pv, i + 1) == admitted_names(ig, pv, i as int).push(pv[i as int].0));
                    assert(admitted_names(ig, pv, i as int).len() >= max_nodes());
                    lemma_admitted_grows(ig, pv, i + 1, n as int);
                    assert(admitted_names(ig, pv, n as int).len() > max_nodes());
                }
                return Err(e);
            },
        }
        proof {
            assert forall|u: int| 0 <= u < builder.links().len() implies (#[trigger] builder.links()[u]).len() == 0 by {
                if u < before.len() {
                    assert(builder.links()[u] == before[u]);
                }
            }
        }
        i = i + 1;
    }
    proof {
        builder.names().lemma_len_bound();
    }
    let ghost names = builder.names();
    builder.resolve();
    let ghost rids = builder.redirect_ids();
    assert(rids =~= redirect_index(redirect_entries(ig, pv, n as int), redirect_count(ig, pv, n as int), names));
    let mut i: usize = 0;
    while i < n
        invariant
            patterns.wf(),
            builder.wf(),
            builder.mode() == mode,
            builder.names() == names,
            builder.redirect_ids() == rids,
            ig == ignore@,
            rids == redirect_index(redirect_entries(ig, pv, n as int), redirect_count(ig, pv, n as int), names),
            names@ == admitted_names(ig, pv, n as int),
            builder.links().len() == names@.len(),
            pv == page_views(pages@),
            n == pages@.len(),
            i <= n,
            forall|u: u32, x: u32|
                (u as int) < builder.links().len() ==> (#[trigger] builder.links()[u as int].contains(x)
                    <==> built_edge(mode, names, rids, pv, i as int, u, x)),
        decreases n - i,
    {
        assert(pv[i as int] == (pages@[i as int].0@, pages@[i as int].1@));
        builder.add_page_links(pages[i].0.as_str(), pages[i].1.as_str(), patterns);
        proof {
            assert forall|u: u32, x: u32|
                (u as int) < builder.links().len() implies (#[trigger] builder.links()[u as int].contains(x)
                    <==> built_edge(mode, names, rids, pv, i + 1, u, x)) by {
                lemma_built_edge_step(mode, names, rids, pv, i as int, u, x);
            }
        }
        i = i + 1;
    }
    let ghost final_links = builder.links();
    let g = builder.finish();
    proof {
        assert forall|u: u32, x: u32|
            (u as int) < g.adj().len() implies (#[trigger] g.adj()[u as int].contains(x) <==> built_edge(
                mode, g.article_map, rids, pv, n as int, u, x)) by {
            assert(g.adj()[u as int].contains(x) <==> final_links[u as int].contains(x));
        }
        assert(g.article_map == names);
        assert(is_build_of(g, ignore@, page_views(pages@), mode));
    }
    Ok(g)
}

proof fn lemma_built_edge_step(
    mode: ParserMode,
    names: NameIndex,
    redirect_ids: Map<Seq<char>, u32>,
    pages: Seq<(Seq<char>, Seq<char>)>,
    i: int,
    u: u32,
    x: u32,
)
    requires
        0 <= i < pages.len(),
    ensures
        built_edge(mode, names, redirect_ids, pages, i + 1, u, x) <==> (built_edge(
            mode,
            names,
            redirect_ids,
            pages,
            i,
            u,
            x,
        ) || (names.has(pages[i].0) && page_edge(
            mode,
            names,
            redirect_ids,
            names.id_of(pages[i].0)->0,
            link_text(pages[i].1),
            u,
            x,
        ))),
{
    if built_edge(mode, names, redirect_ids, pages, i + 1, u, x) {
        let j = choose|j: int|
            0 <= j < i + 1 && names.has(pages[j].0) && #[trigger] page_edge(
                mode,
                names,
                redirect_ids,
                names.id_of(pages[j].0)->0,
                link_text(pages[j].1),
                u,
                x,
            );
    }
}

/// Admitting more pages never admits fewer articles.
pub proof fn lemma_admitted_grows(
    ignore: Set<Seq<char>>,
    pages: Seq<(Seq<char>, Seq<char>)>,
    j: int,
    k: int,
)
    requires
        0 <= j <= k,
    ensures
        admitted_names(ignore, pages, j).len() <= admitted_names(ignore, pages, k).len(),
    decreases k - j,
{
    if j < k {
        lemma_admitted_grows(ignore, pages, j, k - 1);
    }
}

/// A dump with no pages gives a graph with no articles.
pub proof fn lemma_no_pages_no_articles(ignore: Set<Seq<char>>)
    ensures
        admitted_names(ignore, Seq::empty(), 0) == Seq::<Seq<char>>::empty(),
{
}

/// Ignoring every name that would otherwise be admitted gives a graph with
/// no articles.
pub proof fn lemma_all_ignored_no_articles(
    ignore: Set<Seq<char>>,
    pages: Seq<(Seq<char>, Seq<char>)>,
    upto: int,
)
    requires
        0 <= upto <= pages.len(),
        forall|i: int|
            0 <= i < pages.len() && #[trigger] admits(Set::empty(), pages[i].0, pages[i].1)
                ==> ignore.contains(pages[i].0),
    ensures
        admitted_names(ignore, pages, upto) == Seq::<Seq<char>>::empty(),
    decreases upto,
{
    if upto > 0 {
        lemma_all_ignored_no_articles(ignore, pages, upto - 1);
        let page = pages[upto - 1];
        if admits(Set::empty(), page.0, page.1) {
            assert(ignore.contains(page.0));
        }
    }
}

/// Name indexes with the same names give the same ids and the same
/// redirect ids.
proof fn lemma_same_names(
    a: NameIndex,
    b: NameIndex,
    table: Map<Seq<char>, Seq<char>>,
    size: nat,
)
    requires
        a@ == b@,
    ensures
        forall|k: Seq<char>| #[trigger] a.id_of(k) == b.id_of(k) && a.has(k) == b.has(k),
        redirect_index(table, size, a) == redirect_index(table, size, b),
{
    assert(redirect_index(table, size, a) =~= redirect_index(table, size, b));
}

/// Building the same pages with the same ignore set once with incoming and
/// once with outgoing links gives the same names, and `x` is in the list of
/// `u` in the first exactly when `u` is in the list of `x` in the second.
pub proof fn lemma_builds_mirror(
    ignore: Set<Seq<char>>,
    pages: Seq<(Seq<char>, Seq<char>)>,
    incoming: WikipediaAnalysis,
    outgoing: WikipediaAnalysis,
)
    requires
        is_build_of(incoming, ignore, pages, ParserMode::IncomingLinks),
        is_build_of(outgoing, ignore, pages, ParserMode::OutgoingLinks),
    ensures
        incoming.article_map@ == outgoing.article_map@,
        incoming.adj().len() == outgoing.adj().len(),
        forall|u: u32, x: u32|
            (u as int) < incoming.adj().len() && (x as int) < incoming.adj().len() ==> (
            #[trigger] incoming.adj()[u as int].contains(x) <==> #[trigger] outgoing.adj()[x as int].contains(u)),
{
    let a = incoming.article_map;
    let b = outgoing.article_map;
    let n = pages.len() as int;
    let table = redirect_entries(ignore, pages, n);
    let size = redirect_count(ignore, pages, n);
    lemma_same_names(a, b, table, size);
    let rids = redirect_index(table, size, a);
    assert forall|t: Seq<char>| #[trigger] resolve_target(a, rids, t) == resolve_target(b, rids, t) by {
        assert(a.has(t) == b.has(t) && a.id_of(t) == b.id_of(t));
    }
    assert forall|u: u32, x: u32|
        (u as int) < incoming.adj().len() && (x as int) < incoming.adj().len() implies (
        #[trigger] incoming.adj()[u as int].contains(x) <==> #[trigger] outgoing.adj()[x as int].contains(u)) by {
        if built_edge(ParserMode::IncomingLinks, a, rids, pages, n, u, x) {
            let j = choose|j: int|
                0 <= j < n && a.has(pages[j].0) && #[trigger] page_edge(
                    ParserMode::IncomingLinks,
                    a,
                    rids,
                    a.id_of(pages[j].0)->0,
                    link_text(pages[j].1),
                    u,
                    x,
                );
            assert(a.has(pages[j].0) == b.has(pages[j].0));
            assert(a.id_of(pages[j].0) == b.id_of(pages[j].0));
            let t = choose|t: Seq<char>|
                #[trigger] text_targets(link_text(pages[j].1)).contains(t) && resolve_target(a, rids, t) == Some(u);
            assert(resolve_target(b, rids, t) == Some(u));
            assert(page_edge(ParserMode::OutgoingLinks, b, rids, b.id_of(pages[j].0)->0, link_text(pages[j].1), x, u));
            assert(built_edge(ParserMode::OutgoingLinks, b, rids, pages, n, x, u));
        }
        if built_edge(ParserMode::OutgoingLinks, b, rids, pages, n, x, u) {
            let j = choose|j: int|
                0 <= j < n && b.has(pages[j].0) && #[trigger] page_edge(
                    ParserMode::OutgoingLinks,
                    b,
                    rids,
                    b.id_of(pages[j].0)->0,
                    link_text(pages[j].1),
                    x,
                    u,
                );
            assert(a.has(pages[j].0) == b.has(pages[j].0));
            assert(a.id_of(pages[j].0) == b.id_of(pages[j].0));
            let t = choose|t: Seq<char>|
                #[trigger] text_targets(link_text(pages[j].1)).contains(t) && resolve_target(b, rids, t) == Some(u);
            assert(resolve_target(a, rids, t) == Some(u));
            assert(page_edge(ParserMode::IncomingLinks, a, rids, a.id_of(pages[j].0)->0, link_text(pages[j].1), u, x));
            assert(built_edge(ParserMode::IncomingLinks, a, rids, pages, n, u, x));
        }
    }
}

} // verus!
