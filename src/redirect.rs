//! Redirect pages: the table of redirect names to target names, and its
//! closure into node ids.
use crate::graph::NameIndex;
use crate::text::string_views;
use vstd::hash_map::StringHashMap;
use vstd::prelude::*;

verus! {

/// Redirect page names with the names they redirect to; the first entry for
/// a name is kept.
pub struct RedirectTable {
    keys: Vec<String>,
    targets: StringHashMap<String>,
}

impl View for RedirectTable {
    type V = Map<Seq<char>, Seq<char>>;

    closed spec fn view(&self) -> Map<Seq<char>, Seq<char>> {
        Map::new(|k: Seq<char>| self.targets@.contains_key(k), |k: Seq<char>| self.targets@[k]@)
    }
}

impl RedirectTable {
    /// The number of entries.
    pub closed spec fn size(&self) -> nat {
        self.keys@.len()
    }

    pub closed spec fn wf(&self) -> bool {
        &&& string_views(self.keys@).no_duplicates()
        &&& forall|k: Seq<char>|
            #[trigger] self.targets@.contains_key(k) <==> string_views(self.keys@).contains(k)
    }

    /// A table with no entries.
    pub fn new() -> (r: RedirectTable)
        ensures
            r.wf(),
            r@ == Map::<Seq<char>, Seq<char>>::empty(),
            r.size() == 0,
    {
        let r = RedirectTable { keys: Vec::new(), targets: StringHashMap::new() };
        assert(r@ =~= Map::<Seq<char>, Seq<char>>::empty());
        assert(string_views(r.keys@) =~= Seq::<Seq<char>>::empty());
        r
    }

    /// Records that `name` redirects to `target`, unless `name` already has
    /// an entry; returns whether it was recorded.
    pub fn insert(&mut self, name: String, target: String) -> (r: bool)
        requires
            old(self).wf(),
        ensures
            final(self).wf(),
            r == !old(self)@.contains_key(name@),
            r ==> final(self)@ == old(self)@.insert(name@, target@) && final(self).size() == old(
                self,
            ).size() + 1,
            !r ==> final(self)@ == old(self)@ && final(self).size() == old(self).size(),
    {
        if self.targets.contains_key(name.as_str()) {
            return false;
        }
        let ghost kv = string_views(self.keys@);
        self.targets.insert(name.clone(), target);
        self.keys.push(name);
        proof {
            assert(string_views(self.keys@) =~= kv.push(name@));
            crate::text::lemma_push_contains(kv, name@);
            assert(self@ =~= old(self)@.insert(name@, target@));
        }
        true
    }

    /// The target of `name`, if it is a redirect.
    pub fn get(&self, name: &str) -> (r: Option<&String>)
        ensures
            r matches Some(t) ==> self@.contains_key(name@) && t@ == self@[name@],
            r is None ==> !self@.contains_key(name@),
    {
        self.targets.get(name)
    }
}

/// Where a chain of redirects that has reached `cur` ends: the first name on
/// it that has a node id, following at most `fuel` more redirects.
pub open spec fn follow(
    table: Map<Seq<char>, Seq<char>>,
    names: Seq<Seq<char>>,
    cur: Seq<char>,
    fuel: nat,
) -> Option<Seq<char>>
    decreases fuel,
{
    if names.contains(cur) {
        Some(cur)
    } else if fuel == 0 || !table.contains_key(cur) {
        None
    } else {
        follow(table, names, table[cur], (fuel - 1) as nat)
    }
}

/// The id that a redirect name leads to: the chain from its target, followed
/// through at most as many redirects as the table holds, ends at an article.
pub open spec fn redirect_id(
    table: Map<Seq<char>, Seq<char>>,
    size: nat,
    index: NameIndex,
    name: Seq<char>,
) -> Option<u32> {
    if table.contains_key(name) {
        match follow(table, index@, table[name], size) {
            Some(end) => index.id_of(end),
            None => None,
        }
    } else {
        None
    }
}

/// Resolves every redirect of `table` to the id of the article its chain
/// ends at; redirects whose chain ends nowhere, or in a cycle, are left out.
pub fn resolve_redirects(article_map: &NameIndex, redirects: &RedirectTable) -> (r: StringHashMap<u32>)
    requires
        article_map.wf(),
        redirects.wf(),
    ensures
        forall|k: Seq<char>|
            #[trigger] r@.contains_key(k) <==> redirect_id(redirects@, redirects.size(), *article_map, k) is Some,
        forall|k: Seq<char>|
            #[trigger] r@.contains_key(k) ==> Some(r@[k]) == redirect_id(redirects@, redirects.size(), *article_map, k),
        forall|k: Seq<char>| #[trigger] r@.contains_key(k) ==> (r@[k] as int) < article_map@.len(),
{
    let ghost table = redirects@;
    let ghost names = article_map@;
    let ghost total = redirects.size();
    let mut resolved: StringHashMap<u32> = StringHashMap::new();
    let n: usize = redirects.keys.len();
    let mut i: usize = 0;
    while i < n
        invariant
            article_map.wf(),
            redirects.wf(),
            n == redirects.keys@.len(),
            total == n,
            table == redirects@,
            names == article_map@,
            i <= n,
            forall|k: Seq<char>|
                #[trigger] resolved@.contains_key(k) <==> (string_views(redirects.keys@).subrange(0, i as int).contains(k)
                    && redirect_id(table, total, *article_map, k) is Some),
            forall|k: Seq<char>|
                #[trigger] resolved@.contains_key(k) ==> Some(resolved@[k]) == redirect_id(table, total, *article_map, k),
            forall|k: Seq<char>| #[trigger] resolved@.contains_key(k) ==> (resolved@[k] as int) < names.len(),
        decreases n - i,
    {
        let key: &String = &redirects.keys[i];
        let ghost kv = string_views(redirects.keys@);
        assert(kv[i as int] == key@);
        assert(kv.contains(key@));
        assert(redirects.targets@.contains_key(key@));
        let first: &String = redirects.targets.get(key.as_str()).unwrap();
        let mut cur: &String = first;
        let mut fuel: usize = n;
        let mut walking = true;
        while walking
            invariant
                article_map.wf(),
                redirects.wf(),
                table == redirects@,
                names == article_map@,
                fuel <= n,
                follow(table, names, cur@, fuel as nat) == follow(table, names, first@, n as nat),
                !walking ==> (names.contains(cur@) || fuel == 0 || !table.contains_key(cur@)),
            decreases fuel, if walking { 1int } else { 0int },
        {
            if article_map.get(cur.as_str()).is_some() || fuel == 0 {
                walking = false;
            } else {
                match redirects.targets.get(cur.as_str()) {
                    Some(next) => {
                        assert(table.contains_key(cur@) && table[cur@] == next@);
                        cur = next;
                        fuel = fuel - 1;
                    },
                    None => {
                        walking = false;
                    },
                }
            }
        }
        let ghost sub = kv.subrange(0, i as int);
        let ghost sub1 = kv.subrange(0, i + 1);
        assert(sub1 =~= sub.push(key@));
        proof {
            crate::text::lemma_push_contains(sub, key@);
        }
        match article_map.get(cur.as_str()) {
            Some(id) => {
                proof {
                    assert(follow(table, names, cur@, fuel as nat) == Some(cur@));
                }
                resolved.insert(key.clone(), id);
            },
            None => {
                proof {
                    assert(follow(table, names, cur@, fuel as nat) is None);
                }
            },
        }
        i = i + 1;
    }
    proof {
        assert(string_views(redirects.keys@).subrange(0, n as int) =~= string_views(redirects.keys@));
    }
    resolved
}

} // verus!
