//! The wiki markup patterns that links are read from, matched by the regex
//! crate.
use crate::text::{lemma_push_contains, string_views, link_target, link_target_of, segments, split_char};
use vstd::prelude::*;

verus! {

/// A link in double square brackets, at the start of the text or not right
/// after `=`.
pub const WIKI_LINK: &'static str = r"(?:^|[^=])\[\[([^\[\]]+)\]\]";

/// An infobox, up to the first line that starts by closing it.
pub const INFOBOX: &'static str = r"(?ms)\{\{Infobox.*?^\}\}";

/// A `main article` template naming one article.
pub const MAIN_ARTICLE: &'static str = r"\{\{main article\|([^{}\|]+?)\}\}";

/// A `see also` template naming articles separated by `|`.
pub const SEE_ALSO: &'static str = r"\{\{see also\|([^\{\}]+?)\}\}";

/// A compiled regular expression of the regex crate, held opaque.
#[verifier::external_type_specification]
#[verifier::external_body]
pub struct ExRegex(regex::Regex);

/// The first group of each successive non-overlapping match of `pattern` in
/// `text`, as `regex::Regex::captures_iter` finds them (empty where the group
/// took no part).
pub uninterp spec fn regex_group_captures(pattern: Seq<char>, text: Seq<char>) -> Seq<Seq<char>>;

/// Whether `regex::Regex::new` accepts `pattern`.
pub uninterp spec fn regex_accepts(pattern: Seq<char>) -> bool;

/// What follows the first match of `pattern` in `text`, as
/// `regex::Regex::find` reports the match's end; `None` when nothing matches.
pub uninterp spec fn regex_text_after_first_match(pattern: Seq<char>, text: Seq<char>) -> Option<
    Seq<char>,
>;

/// `t` is a tail of `s`.
pub open spec fn is_suffix(t: Seq<char>, s: Seq<char>) -> bool {
    t.len() <= s.len() && s.subrange(s.len() - t.len(), s.len() as int) == t
}

/// A compiled pattern together with its source text.
pub struct Pattern {
    source: String,
    re: regex::Regex,
}

impl Pattern {
    /// The pattern's source text.
    pub closed spec fn source(&self) -> Seq<char> {
        self.source@
    }

    /// Relies on `regex::Regex::new`; `None` where it refuses the pattern.
    #[verifier::external_body]
    fn compile(source: &str) -> (r: Option<Pattern>)
        ensures
            r is Some <==> regex_accepts(source@),
            r matches Some(p) ==> p.source() == source@,
    {
        match regex::Regex::new(source) {
            Ok(re) => Some(Pattern { source: source.to_string(), re }),
            Err(_) => None,
        }
    }

    /// Relies on `regex::Regex::captures_iter`: the first group of each match.
    #[verifier::external_body]
    fn group_captures(&self, text: &str) -> (r: Vec<String>)
        ensures
            string_views(r@) == regex_group_captures(self.source(), text@),
    {
        self.re.captures_iter(text).map(|c| c.get(1).map_or(String::new(), |m| m.as_str().to_string())).collect()
    }

    /// Relies on `regex::Regex::find`: what follows the end of the first
    /// match, a tail of the text.
    #[verifier::external_body]
    fn text_after_first_match<'a>(&self, text: &'a str) -> (r: Option<&'a str>)
        ensures
            r matches Some(t) ==> Some(t@) == regex_text_after_first_match(self.source(), text@)
                && is_suffix(t@, text@),
            r is None ==> regex_text_after_first_match(self.source(), text@) is None,
    {
        self.re.find(text).map(|m| &text[m.end()..])
    }
}

/// The part of a page body that links are read from: what follows its first
/// infobox, or the whole body when it has none.
pub open spec fn link_text(body: Seq<char>) -> Seq<char> {
    match regex_text_after_first_match(INFOBOX@, body) {
        Some(t) => t,
        None => body,
    }
}

/// The link targets of a text: those of its wiki links, of its `main
/// article` templates, and of each `|`-separated entry of its `see also`
/// templates; empty names left out.
pub open spec fn text_targets(text: Seq<char>) -> Set<Seq<char>> {
    Set::new(
        |t: Seq<char>|
            t.len() > 0 && ((exists|i: int|
                0 <= i < regex_group_captures(WIKI_LINK@, text).len() && link_target(
                    #[trigger] regex_group_captures(WIKI_LINK@, text)[i],
                ) == t) || (exists|i: int|
                0 <= i < regex_group_captures(MAIN_ARTICLE@, text).len() && link_target(
                    #[trigger] regex_group_captures(MAIN_ARTICLE@, text)[i],
                ) == t) || (exists|i: int, j: int|
                0 <= i < regex_group_captures(SEE_ALSO@, text).len() && 0 <= j < segments(
                    regex_group_captures(SEE_ALSO@, text)[i],
                    '|',
                ).len() && link_target(
                    #[trigger] segments(regex_group_captures(SEE_ALSO@, text)[i], '|')[j],
                ) == t)),
    )
}

/// The four patterns that link extraction uses, compiled once.
pub struct LinkPatterns {
    wiki_link: Pattern,
    infobox: Pattern,
    main_article: Pattern,
    see_also: Pattern,
}

impl LinkPatterns {
    pub closed spec fn wf(&self) -> bool {
        &&& self.wiki_link.source() == WIKI_LINK@
        &&& self.infobox.source() == INFOBOX@
        &&& self.main_article.source() == MAIN_ARTICLE@
        &&& self.see_also.source() == SEE_ALSO@
    }

    /// Compiles the patterns; `None` where the regex crate refuses one.
    pub fn new() -> (r: Option<LinkPatterns>)
        ensures
            r is Some <==> regex_accepts(WIKI_LINK@) && regex_accepts(INFOBOX@) && regex_accepts(
                MAIN_ARTICLE@,
            ) && regex_accepts(SEE_ALSO@),
            r matches Some(p) ==> p.wf(),
    {
        let wiki_link = Pattern::compile(WIKI_LINK)?;
        let infobox = Pattern::compile(INFOBOX)?;
        let main_article = Pattern::compile(MAIN_ARTICLE)?;
        let see_also = Pattern::compile(SEE_ALSO)?;
        Some(LinkPatterns { wiki_link, infobox, main_article, see_also })
    }

    /// The captures of the wiki links of `text`.
    pub fn wiki_link_captures(&self, text: &str) -> (r: Vec<String>)
        requires
            self.wf(),
        ensures
            string_views(r@) == regex_group_captures(WIKI_LINK@, text@),
    {
        self.wiki_link.group_captures(text)
    }

    /// The part of a page body that links are read from: what follows the
    /// first infobox, or the whole body when it has none.
    pub fn text_after_infobox<'a>(&self, body: &'a str) -> (r: &'a str)
        requires
            self.wf(),
        ensures
            r@ == link_text(body@),
            is_suffix(r@, body@),
    {
        match self.infobox.text_after_first_match(body) {
            Some(rest) => rest,
            None => {
                assert(body@.subrange(0, body@.len() as int) =~= body@);
                body
            },
        }
    }

    /// The link targets of `text`, possibly with repeats.
    pub fn link_targets(&self, text: &str) -> (r: Vec<String>)
        requires
            self.wf(),
        ensures
            forall|t: Seq<char>|
                #[trigger] string_views(r@).contains(t) <==> text_targets(text@).contains(t),
    {
        let mut out: Vec<String> = Vec::new();
        let wiki = self.wiki_link.group_captures(text);
        let main = self.main_article.group_captures(text);
        let see = self.see_also.group_captures(text);
        let ghost w = regex_group_captures(WIKI_LINK@, text@);
        let ghost m = regex_group_captures(MAIN_ARTICLE@, text@);
        let ghost sa = regex_group_captures(SEE_ALSO@, text@);
        assert(string_views(wiki@).len() == wiki@.len());
        assert(string_views(main@).len() == main@.len());
        assert(string_views(see@).len() == see@.len());
        let mut i: usize = 0;
        while i < wiki.len()
            invariant
                i <= wiki@.len(),
                string_views(wiki@) == w,
                forall|t: Seq<char>|
                    #[trigger] string_views(out@).contains(t) <==> (t.len() > 0 && exists|k: int|
                        0 <= k < i && link_target(#[trigger] w[k]) == t),
            decreases wiki@.len() - i,
        {
            let t = link_target_of(wiki[i].as_str());
            assert(wiki@[i as int]@ == w[i as int]);
            let ghost before = string_views(out@);
            if !t.as_str().is_empty() {
                out.push(t);
                proof {
                    assert(string_views(out@) =~= before.push(link_target(w[i as int])));
                    lemma_push_contains(before, link_target(w[i as int]));
                }
            }
            proof {
                assert forall|x: Seq<char>|
                    #[trigger] string_views(out@).contains(x) <==> (x.len() > 0 && exists|k: int|
                        0 <= k < i + 1 && link_target(#[trigger] w[k]) == x) by {
                    if x.len() > 0 && exists|k: int| 0 <= k < i + 1 && link_target(#[trigger] w[k]) == x {
                        let k = choose|k: int| 0 <= k < i + 1 && link_target(#[trigger] w[k]) == x;
                        if k < i {
                            assert(before.contains(x));
                        }
                    }
                }
            }
            i = i + 1;
        }
        let ghost after_wiki = string_views(out@);
        let mut i: usize = 0;
        while i < main.len()
            invariant
                i <= main@.len(),
                string_views(main@) == m,
                forall|t: Seq<char>|
                    #[trigger] string_views(out@).contains(t) <==> (after_wiki.contains(t) || (t.len() > 0 && exists|k: int|
                        0 <= k < i && link_target(#[trigger] m[k]) == t)),
            decreases main@.len() - i,
        {
            let t = link_target_of(main[i].as_str());
            assert(main@[i as int]@ == m[i as int]);
            let ghost before = string_views(out@);
            if !t.as_str().is_empty() {
                out.push(t);
                proof {
                    assert(string_views(out@) =~= before.push(link_target(m[i as int])));
                    lemma_push_contains(before, link_target(m[i as int]));
                }
            }
            proof {
                assert forall|x: Seq<char>|
                    #[trigger] string_views(out@).contains(x) <==> (after_wiki.contains(x) || (x.len() > 0 && exists|k: int|
                        0 <= k < i + 1 && link_target(#[trigger] m[k]) == x)) by {
                    if x.len() > 0 && exists|k: int| 0 <= k < i + 1 && link_target(#[trigger] m[k]) == x {
                        let k = choose|k: int| 0 <= k < i + 1 && link_target(#[trigger] m[k]) == x;
                        if k < i {
                            assert(before.contains(x));
                        }
                    }
                }
            }
            i = i + 1;
        }
        let ghost after_main = string_views(out@);
        let mut i: usize = 0;
        while i < see.len()
            invariant
                i <= see@.len(),
                string_views(see@) == sa,
                forall|t: Seq<char>|
                    #[trigger] string_views(out@).contains(t) <==> (after_main.contains(t) || (t.len() > 0 && exists|k: int, j: int|
                        0 <= k < i && 0 <= j < segments(sa[k], '|').len() && link_target(#[trigger] segments(sa[k], '|')[j]) == t)),
            decreases see@.len() - i,
        {
            assert(see@[i as int]@ == sa[i as int]);
            let parts = split_char(see[i].as_str(), '|');
            let ghost pv = segments(sa[i as int], '|');
            assert(string_views(parts@).len() == parts@.len());
            let ghost before_entry = string_views(out@);
            let mut j: usize = 0;
            while j < parts.len()
                invariant
                    j <= parts@.len(),
                    string_views(parts@) == pv,
                    forall|t: Seq<char>|
                        #[trigger] string_views(out@).contains(t) <==> (before_entry.contains(t) || (t.len() > 0 && exists|q: int|
                            0 <= q < j && link_target(#[trigger] pv[q]) == t)),
                decreases parts@.len() - j,
            {
                let t = link_target_of(parts[j].as_str());
                assert(parts@[j as int]@ == pv[j as int]);
                let ghost before = string_views(out@);
                if !t.as_str().is_empty() {
                    out.push(t);
                    proof {
                        assert(string_views(out@) =~= before.push(link_target(pv[j as int])));
                        lemma_push_contains(before, link_target(pv[j as int]));
                    }
                }
                proof {
                    assert forall|x: Seq<char>|
                        #[trigger] string_views(out@).contains(x) <==> (before_entry.contains(x) || (x.len() > 0 && exists|q: int|
                            0 <= q < j + 1 && link_target(#[trigger] pv[q]) == x)) by {
                        if x.len() > 0 && exists|q: int| 0 <= q < j + 1 && link_target(#[trigger] pv[q]) == x {
                            let q = choose|q: int| 0 <= q < j + 1 && link_target(#[trigger] pv[q]) == x;
                            if q < j {
                                assert(before.contains(x));
                            }
                        }
                    }
                }
                j = j + 1;
            }
            proof {
                assert forall|x: Seq<char>|
                    #[trigger] string_views(out@).contains(x) <==> (after_main.contains(x) || (x.len() > 0 && exists|k: int, q: int|
                        0 <= k < i + 1 && 0 <= q < segments(sa[k], '|').len() && link_target(#[trigger] segments(sa[k], '|')[q]) == x)) by {
                    if x.len() > 0 && exists|k: int, q: int|
                        0 <= k < i + 1 && 0 <= q < segments(sa[k], '|').len() && link_target(#[trigger] segments(sa[k], '|')[q]) == x {
                        let (k, q) = choose|k: int, q: int|
                            0 <= k < i + 1 && 0 <= q < segments(sa[k], '|').len() && link_target(#[trigger] segments(sa[k], '|')[q]) == x;
                        if k < i {
                            assert(before_entry.contains(x));
                        } else {
                            assert(link_target(pv[q]) == x);
                        }
                    }
                    if string_views(out@).contains(x) && !after_main.contains(x) && !before_entry.contains(x) {
                        let q = choose|q: int| 0 <= q < j && link_target(#[trigger] pv[q]) == x;
                        assert(link_target(segments(sa[i as int], '|')[q]) == x);
                    }
                }
            }
            i = i + 1;
        }
        proof {
            assert forall|t: Seq<char>|
                #[trigger] string_views(out@).contains(t) <==> text_targets(text@).contains(t) by {
            }
        }
        out
    }
}

} // verus!
