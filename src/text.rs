//! Title rules and the text operations they rest on: which page titles are
//! admitted, how a title or link target is put in canonical form.
use vstd::prelude::*;
use vstd::string::StrSliceExecFns;
use vstd::string::StringExecFns;

verus! {

/// The character sequences of a sequence of strings.
pub open spec fn string_views(v: Seq<String>) -> Seq<Seq<char>> {
    v.map_values(|s: String| s@)
}

/// `s` begins with `p`.
pub open spec fn has_prefix(s: Seq<char>, p: Seq<char>) -> bool {
    p.len() <= s.len() && s.subrange(0, p.len() as int) == p
}

/// `p` occurs somewhere in `s`.
pub open spec fn has_infix(s: Seq<char>, p: Seq<char>) -> bool {
    exists|i: int| 0 <= i && i + p.len() <= s.len() && #[trigger] s.subrange(i, i + p.len()) == p
}

/// Relies on `str::starts_with` with a string pattern.
#[verifier::external_body]
pub(crate) fn str_starts_with(s: &str, p: &str) -> (r: bool)
    ensures
        r == has_prefix(s@, p@),
{
    s.starts_with(p)
}

/// Relies on `str::contains` with a string pattern.
#[verifier::external_body]
pub(crate) fn str_contains(s: &str, p: &str) -> (r: bool)
    ensures
        r == has_infix(s@, p@),
{
    s.contains(p)
}

/// A character with the Unicode `White_Space` property.
pub open spec fn is_white_space(c: char) -> bool {
    ('\u{9}' <= c && c <= '\u{d}') || c == ' ' || c == '\u{85}' || c == '\u{a0}' || c == '\u{1680}'
        || ('\u{2000}' <= c && c <= '\u{200a}') || c == '\u{2028}' || c == '\u{2029}' || c
        == '\u{202f}' || c == '\u{205f}' || c == '\u{3000}'
}

/// The text without its leading white space.
pub open spec fn trimmed_start(s: Seq<char>) -> Seq<char>
    decreases s.len(),
{
    if s.len() > 0 && is_white_space(s[0]) {
        trimmed_start(s.drop_first())
    } else {
        s
    }
}

/// The text without its trailing white space.
pub open spec fn trimmed_end(s: Seq<char>) -> Seq<char>
    decreases s.len(),
{
    if s.len() > 0 && is_white_space(s.last()) {
        trimmed_end(s.drop_last())
    } else {
        s
    }
}

/// The text without leading or trailing white space.
pub open spec fn trimmed(s: Seq<char>) -> Seq<char> {
    trimmed_end(trimmed_start(s))
}

/// Relies on `str::trim`: leading and trailing characters with the Unicode
/// `White_Space` property removed.
#[verifier::external_body]
pub(crate) fn trim_str(s: &str) -> (r: &str)
    ensures
        r@ == trimmed(s@),
{
    s.trim()
}

/// What `char::to_uppercase` yields for a character.
pub uninterp spec fn uppercase_of(c: char) -> Seq<char>;

/// Relies on `char::to_uppercase`, collected into a string.
#[verifier::external_body]
pub(crate) fn char_to_uppercase(c: char) -> (r: String)
    ensures
        r@ == uppercase_of(c),
{
    c.to_uppercase().collect::<String>()
}

/// The text with its first character in upper case.
pub open spec fn capitalized(s: Seq<char>) -> Seq<char> {
    if s.len() == 0 {
        s
    } else {
        uppercase_of(s[0]) + s.subrange(1, s.len() as int)
    }
}

/// A raw title in canonical form: trimmed, first character in upper case.
pub open spec fn normalized(raw: Seq<char>) -> Seq<char> {
    capitalized(trimmed(raw))
}

/// The position of the first `c` in `s`, if any.
pub open spec fn first_index(s: Seq<char>, c: char) -> Option<int> {
    if s.contains(c) {
        Some(choose|i: int| 0 <= i < s.len() && s[i] == c && forall|j: int| 0 <= j < i ==> s[j] != c)
    } else {
        None
    }
}

/// What comes before the first `c` in `s`; all of `s` when it holds none.
pub open spec fn before_first(s: Seq<char>, c: char) -> Seq<char> {
    match first_index(s, c) {
        Some(i) => s.subrange(0, i),
        None => s,
    }
}

/// The pieces of `s` between occurrences of `c`.
#[verifier::opaque]
pub open spec fn segments(s: Seq<char>, c: char) -> Seq<Seq<char>>
    decreases s.len(),
{
    match first_index(s, c) {
        Some(i) => if 0 <= i < s.len() {
            seq![s.subrange(0, i)] + segments(s.subrange(i + 1, s.len() as int), c)
        } else {
            seq![s]
        },
        None => seq![s],
    }
}

/// A link capture as a candidate article name: display text after `|` and
/// the section after `#` dropped, then trimmed and capitalized.
pub open spec fn link_target(raw: Seq<char>) -> Seq<char> {
    normalized(before_first(before_first(raw, '|'), '#'))
}

/// The title prefixes of pages that are not encyclopedia articles.
pub open spec fn has_namespace_prefix(t: Seq<char>) -> bool {
    has_prefix(t, "File"@) || has_prefix(t, "Discussion"@) || has_prefix(t, "Image"@) || has_prefix(
        t,
        "Category"@,
    ) || has_prefix(t, "Wikipedia"@) || has_prefix(t, "Portal"@) || has_prefix(t, "Template"@)
        || has_prefix(t, "Draft"@) || has_prefix(t, "Module"@) || has_prefix(t, "User"@)
        || has_prefix(t, "Commons"@) || has_prefix(t, "Wikt"@) || has_prefix(t, "Book"@)
        || has_prefix(t, "Mediawiki"@) || has_prefix(t, "User talk"@)
}

/// A title of a page that may become an article of the graph.
pub open spec fn is_admissible(t: Seq<char>) -> bool {
    &&& trimmed(t).len() > 0
    &&& !(has_infix(t, ":"@) && has_namespace_prefix(t))
    &&& !has_infix(t, "\n"@)
    &&& !has_infix(t, "\t"@)
    &&& !has_infix(t, "(disambiguation)"@)
    &&& !has_prefix(t, "List of"@)
    &&& !has_prefix(t, "Index of"@)
    &&& !has_prefix(t, "Table of"@)
}

/// Whether the title starts with a meta namespace prefix.
fn has_namespace_prefix_exec(title: &str) -> (r: bool)
    ensures
        r == has_namespace_prefix(title@),
{
    str_starts_with(title, "File") || str_starts_with(title, "Discussion") || str_starts_with(
        title,
        "Image",
    ) || str_starts_with(title, "Category") || str_starts_with(title, "Wikipedia")
        || str_starts_with(title, "Portal") || str_starts_with(title, "Template")
        || str_starts_with(title, "Draft") || str_starts_with(title, "Module") || str_starts_with(
        title,
        "User",
    ) || str_starts_with(title, "Commons") || str_starts_with(title, "Wikt") || str_starts_with(
        title,
        "Book",
    ) || str_starts_with(title, "Mediawiki") || str_starts_with(title, "User talk")
}

/// Whether a page with this (already canonical) title may become an article:
/// not empty after trimming, not in a meta namespace, free of line breaks and tabs, not a
/// disambiguation page or a list, index or table.
pub fn is_valid_title(title: &str) -> (r: bool)
    ensures
        r == is_admissible(title@),
{
    if trim_str(title).is_empty() {
        return false;
    }
    if str_contains(title, ":") && has_namespace_prefix_exec(title) {
        return false;
    }
    if str_contains(title, "\n") {
        return false;
    }
    if str_contains(title, "\t") {
        return false;
    }
    if str_contains(title, "(disambiguation)") || str_starts_with(title, "List of")
        || str_starts_with(title, "Index of") || str_starts_with(title, "Table of") {
        return false;
    }
    true
}

/// What a sequence with one more entry appended contains.
pub proof fn lemma_push_contains<A>(s: Seq<A>, v: A)
    ensures
        forall|x: A| #[trigger] s.push(v).contains(x) <==> (s.contains(x) || x == v),
{
    assert forall|x: A| #[trigger] s.push(v).contains(x) <==> (s.contains(x) || x == v) by {
        if s.push(v).contains(x) {
            let k = choose|k: int| 0 <= k < s.push(v).len() && s.push(v)[k] == x;
            if k < s.len() {
                assert(s[k] == x);
            }
        }
        if s.contains(x) {
            let k = choose|k: int| 0 <= k < s.len() && s[k] == x;
            assert(s.push(v)[k] == x);
        }
        if x == v {
            assert(s.push(v)[s.len() as int] == x);
        }
    }
}

/// `s` with its first character in upper case.
pub fn capitalize(s: &str) -> (r: String)
    ensures
        r@ == capitalized(s@),
{
    let n: usize = s.unicode_len();
    if n == 0 {
        return String::new();
    }
    let first: char = s.get_char(0);
    let rest: &str = s.substring_char(1, n);
    char_to_uppercase(first).concat(rest)
}

/// A raw title in canonical form.
pub fn normalize(raw: &str) -> (r: String)
    ensures
        r@ == normalized(raw@),
{
    capitalize(trim_str(raw))
}

/// The position of the first `c` in `s`.
pub fn find_char(s: &str, c: char) -> (r: Option<usize>)
    ensures
        r matches Some(i) ==> first_index(s@, c) == Some(i as int),
        r is None ==> first_index(s@, c) is None,
{
    let n: usize = s.unicode_len();
    let mut i: usize = 0;
    while i < n
        invariant
            n == s@.len(),
            i <= n,
            forall|j: int| 0 <= j < i ==> s@[j] != c,
        decreases n - i,
    {
        if s.get_char(i) == c {
            proof {
                assert(s@.contains(c));
                let k = choose|k: int|
                    0 <= k < s@.len() && s@[k] == c && forall|j: int| 0 <= j < k ==> s@[j] != c;
                if k < i {
                } else if k > i {
                    assert(s@[i as int] == c);
                }
            }
            return Some(i);
        }
        i = i + 1;
    }
    proof {
        if s@.contains(c) {
            let k = choose|k: int| 0 <= k < s@.len() && s@[k] == c;
            assert(s@[k] != c);
        }
    }
    None
}

pub proof fn lemma_first_index_range(s: Seq<char>, c: char)
    ensures
        first_index(s, c) matches Some(i) ==> 0 <= i < s.len() && s[i] == c,
{
    if s.contains(c) {
        let k = choose|k: int| 0 <= k < s.len() && s[k] == c;
        assert(exists|i: int| 0 <= i < s.len() && s[i] == c && forall|j: int| 0 <= j < i ==> s[j] != c) by {
            lemma_least_index(s, c, k);
        }
    }
}

proof fn lemma_least_index(s: Seq<char>, c: char, k: int)
    requires
        0 <= k < s.len(),
        s[k] == c,
    ensures
        exists|i: int| 0 <= i < s.len() && s[i] == c && forall|j: int| 0 <= j < i ==> s[j] != c,
    decreases k,
{
    if exists|j: int| 0 <= j < k && s[j] == c {
        let j = choose|j: int| 0 <= j < k && s[j] == c;
        lemma_least_index(s, c, j);
    }
}

/// What comes before the first `c` in `s`.
pub fn before_char(s: &str, c: char) -> (r: &str)
    ensures
        r@ == before_first(s@, c),
{
    proof {
        lemma_first_index_range(s@, c);
    }
    match find_char(s, c) {
        Some(i) => s.substring_char(0, i),
        None => s,
    }
}

pub proof fn lemma_segments_step(s: Seq<char>, c: char, i: int)
    requires
        first_index(s, c) == Some(i),
    ensures
        0 <= i < s.len(),
        segments(s, c) == seq![s.subrange(0, i)] + segments(s.subrange(i + 1, s.len() as int), c),
{
    lemma_first_index_range(s, c);
    reveal(segments);
}

pub proof fn lemma_segments_last(s: Seq<char>, c: char)
    requires
        first_index(s, c) is None,
    ensures
        segments(s, c) == seq![s],
{
    reveal(segments);
}

/// The pieces of `s` between occurrences of `c`.
pub fn split_char(s: &str, c: char) -> (r: Vec<String>)
    ensures
        string_views(r@) == segments(s@, c),
{
    let mut out: Vec<String> = Vec::new();
    let mut rest: &str = s;
    loop
        invariant
            out@.map_values(|x: String| x@) + segments(rest@, c) == segments(s@, c),
        decreases rest@.len(),
    {
        match find_char(rest, c) {
            Some(i) => {
                proof {
                    lemma_segments_step(rest@, c, i as int);
                }
                let n: usize = rest.unicode_len();
                let piece: &str = rest.substring_char(0, i);
                let tail: &str = rest.substring_char(i + 1, n);
                let ghost before = out@.map_values(|x: String| x@);
                out.push(piece.to_owned());
                proof {
                    assert(out@.map_values(|x: String| x@) =~= before.push(piece@));
                    assert(before.push(piece@) + segments(tail@, c) =~= before + (seq![piece@]
                        + segments(tail@, c)));
                }
                rest = tail;
            },
            None => {
                proof {
                    lemma_segments_last(rest@, c);
                }
                let ghost before = out@.map_values(|x: String| x@);
                out.push(rest.to_owned());
                proof {
                    assert(out@.map_values(|x: String| x@) =~= before.push(rest@));
                    assert(before + seq![rest@] =~= before.push(rest@));
                }
                return out;
            },
        }
    }
}

/// A link capture as a candidate article name.
pub fn link_target_of(raw: &str) -> (r: String)
    ensures
        r@ == link_target(raw@),
{
    normalize(before_char(before_char(raw, '|'), '#'))
}

/// Puts the first letter of a title in upper case, as article names are.
pub trait StringExt {
    /// The characters of the text.
    spec fn text(&self) -> Seq<char>;

    fn capitalize_first_letter(&self) -> (r: String)
        ensures
            r@ == capitalized(self.text()),
    ;
}

impl StringExt for String {
    open spec fn text(&self) -> Seq<char> {
        self@
    }

    fn capitalize_first_letter(&self) -> (r: String) {
        capitalize(self.as_str())
    }
}

} // verus!
