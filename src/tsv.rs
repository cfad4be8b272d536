//! The tab-separated form a graph is saved in: one line per node id, in
//! order, holding the id, the name and the link list.
use crate::analyze::WikipediaAnalysis;
use crate::graph::{
    adjacency, distinct_names, lengths_fit, links_in_range, max_nodes, Article, NameIndex,
};
use crate::text::{
    first_index, lemma_first_index_range, lemma_segments_last, lemma_segments_step, segments,
    string_views,
};
use vstd::prelude::*;
use vstd::string::StrSliceExecFns;
use vstd::string::StringExecFns;

verus! {

/// The character of decimal digit `d`.
pub open spec fn digit_char(d: int) -> char {
    seq!['0', '1', '2', '3', '4', '5', '6', '7', '8', '9'][d]
}

/// `n` in decimal, without sign or leading zeros.
pub open spec fn decimal(n: nat) -> Seq<char>
    decreases n,
{
    if n < 10 {
        seq![digit_char(n as int)]
    } else {
        decimal(n / 10).push(digit_char((n % 10) as int))
    }
}

/// A character among `0` to `9`.
pub open spec fn is_digit(c: char) -> bool {
    '0' <= c && c <= '9'
}

/// One or more decimal digits.
pub open spec fn all_digits(s: Seq<char>) -> bool {
    s.len() > 0 && forall|i: int| 0 <= i < s.len() ==> is_digit(#[trigger] s[i])
}

/// The number that a run of decimal digits writes.
pub open spec fn digits_value(s: Seq<char>) -> nat
    decreases s.len(),
{
    if s.len() == 0 {
        0
    } else {
        digits_value(s.drop_last()) * 10 + ((s.last() as u32) - 48) as nat
    }
}

/// What a field holds as a node id: its digits' value, when it is only
/// digits and the value fits a `u32`.
pub open spec fn parsed_u32(s: Seq<char>) -> Option<u32> {
    if all_digits(s) && digits_value(s) <= u32::MAX {
        Some(digits_value(s) as u32)
    } else {
        None
    }
}

/// The one-character string of decimal digit `d`.
fn digit_str(d: u32) -> (r: &'static str)
    requires
        d < 10,
    ensures
        r@ == seq![digit_char(d as int)],
{
    proof {
        reveal_strlit("0");
        reveal_strlit("1");
        reveal_strlit("2");
        reveal_strlit("3");
        reveal_strlit("4");
        reveal_strlit("5");
        reveal_strlit("6");
        reveal_strlit("7");
        reveal_strlit("8");
        reveal_strlit("9");
    }
    let r = match d {
        0 => "0",
        1 => "1",
        2 => "2",
        3 => "3",
        4 => "4",
        5 => "5",
        6 => "6",
        7 => "7",
        8 => "8",
        _ => "9",
    };
    assert(r@ =~= seq![digit_char(d as int)]);
    r
}

/// Appends `n` in decimal to `s`.
fn append_decimal(s: &mut String, n: u32)
    ensures
        final(s)@ == old(s)@ + decimal(n as nat),
    decreases n,
{
    if n >= 10 {
        append_decimal(s, n / 10);
    }
    s.append(digit_str(n % 10));
    proof {
        if n >= 10 {
            assert(old(s)@ + decimal((n / 10) as nat) + seq![digit_char((n % 10) as int)] =~= old(s)@
                + decimal(n as nat));
        } else {
            assert(old(s)@ + seq![digit_char((n % 10) as int)] =~= old(s)@ + decimal(n as nat));
        }
    }
}

/// `n` in decimal.
fn decimal_string(n: u32) -> (r: String)
    ensures
        r@ == decimal(n as nat),
{
    let mut s = String::new();
    append_decimal(&mut s, n);
    assert(s@ =~= decimal(n as nat));
    s
}

/// Relies on `str::split` with a `char` pattern: the pieces between the
/// occurrences of the character.
#[verifier::external_body]
fn split_tabs(s: &str) -> (r: Vec<String>)
    ensures
        string_views(r@) == segments(s@, '\t'),
{
    s.split('\t').map(|p| p.to_string()).collect()
}

proof fn lemma_digits_value_prefix(s: Seq<char>, k: int)
    requires
        0 <= k <= s.len(),
    ensures
        digits_value(s.subrange(0, k)) <= digits_value(s),
    decreases s.len() - k,
{
    if k < s.len() {
        lemma_digits_value_prefix(s, k + 1);
        let a = s.subrange(0, k + 1);
        assert(a.drop_last() =~= s.subrange(0, k));
        let v = digits_value(s.subrange(0, k));
        assert(digits_value(a) == v * 10 + ((a.last() as u32) - 48) as nat);
        assert(v * 10 >= v) by (nonlinear_arith);
    } else {
        assert(s.subrange(0, k) =~= s);
    }
}

/// The node id a field writes, if it writes one.
pub fn parse_u32(s: &str) -> (r: Option<u32>)
    ensures
        r == parsed_u32(s@),
{
    let n: usize = s.unicode_len();
    if n == 0 {
        return None;
    }
    let mut value: u64 = 0;
    let mut i: usize = 0;
    while i < n
        invariant
            n == s@.len(),
            i <= n,
            forall|j: int| 0 <= j < i ==> is_digit(#[trigger] s@[j]),
            value as nat == digits_value(s@.subrange(0, i as int)),
            value <= u32::MAX,
        decreases n - i,
    {
        let c: char = s.get_char(i);
        if !(c >= '0' && c <= '9') {
            return None;
        }
        let d: u64 = (c as u32 - 48) as u64;
        proof {
            assert(s@.subrange(0, i + 1).drop_last() =~= s@.subrange(0, i as int));
        }
        value = value * 10 + d;
        i = i + 1;
        if value > u32::MAX as u64 {
            proof {
                lemma_digits_value_prefix(s@, i as int);
            }
            return None;
        }
    }
    assert(s@.subrange(0, n as int) =~= s@);
    Some(value as u32)
}

/// The tab and decimal id of each link, in order.
pub open spec fn links_text(links: Seq<u32>) -> Seq<char>
    decreases links.len(),
{
    if links.len() == 0 {
        Seq::empty()
    } else {
        seq!['\t'] + decimal(links[0] as nat) + links_text(links.drop_first())
    }
}

/// The line of a node, without its line break.
pub open spec fn tsv_line(id: u32, name: Seq<char>, links: Seq<u32>) -> Seq<char> {
    decimal(id as nat) + seq!['\t'] + name + links_text(links)
}

/// The line for node `id` with name `name` and link list `links`, ending
/// with a line break.
pub fn format_tsv_line(id: u32, name: &str, links: &Vec<u32>) -> (r: String)
    ensures
        r@ == tsv_line(id, name@, links@) + seq!['\n'],
{
    let mut line = decimal_string(id);
    line.append("\t");
    line.append(name);
    proof {
        reveal_strlit("\t");
        reveal_strlit("\n");
    }
    let ghost head = line@;
    assert(head == decimal(id as nat) + seq!['\t'] + name@);
    assert(links@.subrange(0, links@.len() as int) =~= links@);
    let mut i: usize = 0;
    while i < links.len()
        invariant
            i <= links@.len(),
            head == decimal(id as nat) + seq!['\t'] + name@,
            line@ + links_text(links@.subrange(i as int, links@.len() as int)) == head + links_text(links@),
        decreases links@.len() - i,
    {
        let ghost rest = links@.subrange(i as int, links@.len() as int);
        assert(rest.drop_first() =~= links@.subrange(i + 1, links@.len() as int));
        line.append("\t");
        let digits = decimal_string(links[i]);
        line.append(digits.as_str());
        proof {
            reveal_strlit("\t");
            assert(links_text(rest) == seq!['\t'] + decimal(links@[i as int] as nat) + links_text(rest.drop_first()));
        }
        i = i + 1;
        assert(line@ + links_text(links@.subrange(i as int, links@.len() as int)) =~= head + links_text(links@));
    }
    assert(links@.subrange(links@.len() as int, links@.len() as int) =~= Seq::<u32>::empty());
    line.append("\n");
    proof {
        reveal_strlit("\n");
    }
    assert(line@ =~= tsv_line(id, name@, links@) + seq!['\n']);
    line
}

/// The fields of a line that hold links: none when the third field is
/// missing or empty, else the third and all after it.
pub open spec fn link_fields(fields: Seq<Seq<char>>) -> Seq<Seq<char>> {
    if fields.len() <= 2 || fields[2].len() == 0 {
        Seq::empty()
    } else {
        fields.subrange(2, fields.len() as int)
    }
}

/// One line of a saved graph.
pub struct TsvRecord {
    pub id: u32,
    pub name: String,
    pub links: Vec<u32>,
}

/// Why a saved graph could not be read.
#[derive(Clone, Copy, Debug, PartialEq, Eq, Structural)]
pub enum TsvError {
    /// A line with fewer than two fields.
    MissingField,
    /// A field that should hold a node id holds something else.
    BadNumber,
    /// A line whose id is not the number of lines before it.
    OutOfOrder,
    /// A name on two lines.
    DuplicateName,
    /// A link to a node id that no line has, or a link list too long.
    LinkOutOfRange,
    /// More lines than node ids can number.
    Overflow,
}

/// Reads one line (without its line break): id, name, and link ids, split at
/// tabs.
pub fn parse_tsv_line(line: &str) -> (r: Result<TsvRecord, TsvError>)
    ensures
        segments(line@, '\t').len() < 2 <==> r matches Err(TsvError::MissingField),
        segments(line@, '\t').len() >= 2 ==> (r is Ok <==> (parsed_u32(segments(line@, '\t')[0]) is Some
            && forall|i: int|
            0 <= i < link_fields(segments(line@, '\t')).len() ==> parsed_u32(
                #[trigger] link_fields(segments(line@, '\t'))[i],
            ) is Some)),
        segments(line@, '\t').len() >= 2 && r is Err ==> r matches Err(TsvError::BadNumber),
        r matches Ok(rec) ==> Some(rec.id) == parsed_u32(segments(line@, '\t')[0]) && rec.name@ == segments(
            line@,
            '\t',
        )[1] && rec.links@.len() == link_fields(segments(line@, '\t')).len() && forall|i: int|
            0 <= i < rec.links@.len() ==> Some(#[trigger] rec.links@[i]) == parsed_u32(
                link_fields(segments(line@, '\t'))[i],
            ),
{
    let fields = split_tabs(line);
    let ghost f = segments(line@, '\t');
    assert(string_views(fields@).len() == fields@.len());
    if fields.len() < 2 {
        return Err(TsvError::MissingField);
    }
    assert(fields@[0]@ == f[0]);
    assert(fields@[1]@ == f[1]);
    let id = match parse_u32(fields[0].as_str()) {
        Some(v) => v,
        None => {
            return Err(TsvError::BadNumber);
        },
    };
    let mut links: Vec<u32> = Vec::new();
    let ghost lf = link_fields(f);
    if fields.len() > 2 {
        assert(fields@[2]@ == f[2]);
    }
    if fields.len() > 2 && !fields[2].as_str().is_empty() {
        let mut i: usize = 2;
        while i < fields.len()
            invariant
                2 <= i <= fields@.len(),
                f.len() >= 2,
                f == segments(line@, '\t'),
                lf == link_fields(f),
                string_views(fields@) == f,
                lf == f.subrange(2, f.len() as int),
                links@.len() == i - 2,
                forall|k: int| 0 <= k < links@.len() ==> Some(#[trigger] links@[k]) == parsed_u32(lf[k]),
            decreases fields@.len() - i,
        {
            assert(fields@[i as int]@ == lf[i - 2]);
            match parse_u32(fields[i].as_str()) {
                Some(v) => {
                    links.push(v);
                },
                None => {
                    assert(parsed_u32(lf[i - 2]) is None);
                    return Err(TsvError::BadNumber);
                },
            }
            i = i + 1;
        }
    }
    proof {
        if !(f.len() > 2 && f[2].len() != 0) {
            assert(lf =~= Seq::<Seq<char>>::empty());
        }
        assert forall|i: int| 0 <= i < lf.len() implies parsed_u32(#[trigger] lf[i]) is Some by {
            assert(Some(links@[i]) == parsed_u32(lf[i]));
        }
    }
    Ok(TsvRecord { id, name: fields[1].clone(), links })
}

/// What a line holds, when it reads as a record: id, name and links.
pub open spec fn record_of(line: Seq<char>) -> Option<(u32, Seq<char>, Seq<u32>)> {
    let f = segments(line, '\t');
    let lf = link_fields(f);
    if f.len() >= 2 && parsed_u32(f[0]) is Some && forall|i: int|
        0 <= i < lf.len() ==> parsed_u32(#[trigger] lf[i]) is Some {
        Some((parsed_u32(f[0])->0, f[1], Seq::new(lf.len(), |i: int| parsed_u32(lf[i])->0)))
    } else {
        None
    }
}

/// The names that lines read as records give, in order.
pub open spec fn record_names(lines: Seq<Seq<char>>) -> Seq<Seq<char>> {
    Seq::new(lines.len(), |i: int| (record_of(lines[i])->0).1)
}

/// The link lists that lines read as records give, in order.
pub open spec fn record_links(lines: Seq<Seq<char>>) -> Seq<Seq<u32>> {
    Seq::new(lines.len(), |i: int| (record_of(lines[i])->0).2)
}

/// Lines that load as a graph: each reads as a record whose id is its
/// position, no name repeats, and every link names a line.
pub open spec fn loads(lines: Seq<Seq<char>>) -> bool {
    &&& lines.len() <= max_nodes()
    &&& forall|i: int|
        0 <= i < lines.len() ==> (#[trigger] record_of(lines[i])) is Some && (record_of(lines[i])->0).0 == i
    &&& distinct_names(record_names(lines))
    &&& links_in_range(record_links(lines))
    &&& lengths_fit(record_links(lines))
}

/// A graph being read back, line by line.
pub struct GraphLoader {
    names: NameIndex,
    articles: Vec<Article>,
}

impl GraphLoader {
    /// The names read so far, in id order.
    pub closed spec fn names(&self) -> Seq<Seq<char>> {
        self.names@
    }

    /// The link lists read so far, in id order.
    pub closed spec fn links(&self) -> Seq<Seq<u32>> {
        adjacency(self.articles@)
    }

    pub closed spec fn wf(&self) -> bool {
        self.names.wf() && self.articles@.len() == self.names@.len()
    }

    /// The names read so far are distinct.
    pub proof fn lemma_names_distinct(&self)
        requires
            self.wf(),
        ensures
            distinct_names(self.names()),
    {
        self.names.lemma_distinct();
    }

    /// A loader that has read nothing.
    pub fn new() -> (r: GraphLoader)
        ensures
            r.wf(),
            r.names() == Seq::<Seq<char>>::empty(),
            r.links() == Seq::<Seq<u32>>::empty(),
    {
        let r = GraphLoader { names: NameIndex::new(), articles: Vec::new() };
        assert(r.links() =~= Seq::<Seq<u32>>::empty());
        r
    }

    /// Adds the record of the next line: its id must be the number of lines
    /// before it and its name new.
    pub fn add_record(&mut self, rec: TsvRecord) -> (r: Result<(), TsvError>)
        requires
            old(self).wf(),
        ensures
            final(self).wf(),
            rec.id as int != old(self).names().len() ==> r matches Err(TsvError::OutOfOrder),
            rec.id as int == old(self).names().len() && old(self).names().contains(rec.name@) ==> r matches Err(
                TsvError::DuplicateName,
            ),
            rec.id as int == old(self).names().len() && !old(self).names().contains(rec.name@)
                && old(self).names().len() >= max_nodes() ==> r matches Err(TsvError::Overflow),
            r is Ok <==> rec.id as int == old(self).names().len() && !old(self).names().contains(
                rec.name@,
            ) && old(self).names().len() < max_nodes(),
            r is Ok ==> final(self).names() == old(self).names().push(rec.name@) && final(self).links()
                == old(self).links().push(rec.links@),
            r is Err ==> final(self).names() == old(self).names() && final(self).links() == old(
                self,
            ).links(),
    {
        if rec.id as usize != self.articles.len() {
            return Err(TsvError::OutOfOrder);
        }
        if self.names.get(rec.name.as_str()).is_some() {
            return Err(TsvError::DuplicateName);
        }
        let ghost old_links = self.links();
        let ghost name_v = rec.name@;
        let ghost links_v = rec.links@;
        proof {
            self.names.lemma_len_bound();
        }
        match self.names.push(rec.name) {
            Some(_) => {
                self.articles.push(Article { links: rec.links });
                assert(self.links() =~= old_links.push(links_v));
                Ok(())
            },
            None => Err(TsvError::Overflow),
        }
    }

    /// The graph read, when every link names a line and no link list is too
    /// long to count.
    pub fn finish(self) -> (r: Result<WikipediaAnalysis, TsvError>)
        requires
            self.wf(),
        ensures
            r is Ok <==> links_in_range(self.links()) && lengths_fit(self.links()),
            r is Err ==> r matches Err(TsvError::LinkOutOfRange),
            r matches Ok(g) ==> g.wf() && g.article_map@ == self.names() && g.adj() == self.links(),
    {
        let ghost adj = self.links();
        let n: usize = self.articles.len();
        proof {
            self.names.lemma_len_bound();
        }
        let mut u: usize = 0;
        while u < n
            invariant
                self.wf(),
                adj == self.links(),
                n == adj.len(),
                n <= max_nodes(),
                u <= n,
                forall|v: int, i: int| 0 <= v < u && 0 <= i < adj[v].len() ==> (adj[v][i] as int) < n,
                forall|v: int| 0 <= v < u ==> #[trigger] adj[v].len() < u32::MAX,
            decreases n - u,
        {
            let links = &self.articles[u].links;
            assert(links@ == adj[u as int]);
            if links.len() >= u32::MAX as usize {
                return Err(TsvError::LinkOutOfRange);
            }
            let mut i: usize = 0;
            while i < links.len()
                invariant
                    links@ == adj[u as int],
                    adj == self.links(),
                    (u as int) < adj.len(),
                    n == adj.len(),
                    i <= links@.len(),
                    forall|k: int| 0 <= k < i ==> (links@[k] as int) < n,
                decreases links@.len() - i,
            {
                if links[i] as usize >= n {
                    assert(!((adj[u as int][i as int] as int) < adj.len()));
                    return Err(TsvError::LinkOutOfRange);
                }
                i = i + 1;
            }
            u = u + 1;
        }
        Ok(WikipediaAnalysis { article_map: self.names, articles: self.articles })
    }
}

/// Reads a saved graph from its lines (without line breaks).
pub fn load_from_lines(lines: &Vec<String>) -> (r: Result<WikipediaAnalysis, TsvError>)
    ensures
        r is Ok <==> loads(string_views(lines@)),
        r matches Ok(g) ==> g.wf() && g.article_map@ == record_names(string_views(lines@)) && g.adj()
            == record_links(string_views(lines@)),
{
    let ghost lv = string_views(lines@);
    let mut loader = GraphLoader::new();
    let n: usize = lines.len();
    let mut i: usize = 0;
    while i < n
        invariant
            loader.wf(),
            lv == string_views(lines@),
            n == lv.len(),
            i <= n,
            i <= max_nodes(),
            loader.names() == record_names(lv).subrange(0, i as int),
            loader.links() == record_links(lv).subrange(0, i as int),
            forall|k: int| 0 <= k < i ==> (#[trigger] record_of(lv[k])) is Some && (record_of(lv[k])->0).0 == k,
        decreases n - i,
    {
        assert(lines@[i as int]@ == lv[i as int]);
        let rec = match parse_tsv_line(lines[i].as_str()) {
            Ok(rec) => rec,
            Err(e) => {
                proof {
                    assert(record_of(lv[i as int]) is None);
                }
                return Err(e);
            },
        };
        let ghost rv = (rec.id, rec.name@, rec.links@);
        proof {
            let lf = link_fields(segments(lv[i as int], '\t'));
            assert(rec.links@ =~= Seq::new(lf.len(), |j: int| parsed_u32(lf[j])->0));
            assert(record_of(lv[i as int]) == Some(rv));
        }
        match loader.add_record(rec) {
            Ok(()) => {},
            Err(e) => {
                proof {
                    if rv.0 as int == i {
                        assert(loader.names().contains(rv.1) || i >= max_nodes());
                        if loader.names().contains(rv.1) {
                            let j = choose|j: int| 0 <= j < i && loader.names()[j] == rv.1;
                            assert(record_names(lv)[j] == record_names(lv)[i as int]);
                        }
                    }
                }
                return Err(e);
            },
        }
        proof {
            assert(loader.names() =~= record_names(lv).subrange(0, i + 1));
            assert(loader.links() =~= record_links(lv).subrange(0, i + 1));
        }
        i = i + 1;
    }
    proof {
        assert(record_names(lv).subrange(0, n as int) =~= record_names(lv));
        assert(record_links(lv).subrange(0, n as int) =~= record_links(lv));
        assert(distinct_names(record_names(lv))) by {
            loader.lemma_names_distinct();
        }
    }
    loader.finish()
}

/// Decimal numbers are digits, and read back as the number written.
pub proof fn lemma_decimal_reads_back(n: nat)
    ensures
        all_digits(decimal(n)),
        digits_value(decimal(n)) == n,
    decreases n,
{
    assert forall|k: int| 0 <= k < 10 implies (#[trigger] digit_char(k) as u32) == 48 + k && is_digit(digit_char(k)) by {
    }
    if n < 10 {
        let d = decimal(n);
        assert(d.drop_last() =~= Seq::<char>::empty());
        assert(digit_char(n as int) as u32 == 48 + n);
        assert(d.last() == digit_char(n as int));
        assert(digits_value(d) == digits_value(d.drop_last()) * 10 + ((d.last() as u32) - 48) as nat);
        assert(digits_value(d.drop_last()) == 0);
    } else {
        lemma_decimal_reads_back(n / 10);
        let d = decimal(n);
        assert(d.drop_last() =~= decimal(n / 10));
        assert(digit_char((n % 10) as int) as u32 == 48 + n % 10);
        assert(d.last() == digit_char((n % 10) as int));
        assert(digits_value(d) == digits_value(d.drop_last()) * 10 + ((d.last() as u32) - 48) as nat);
        assert forall|i: int| 0 <= i < d.len() implies is_digit(#[trigger] d[i]) by {
            if i < d.len() - 1 {
                assert(d[i] == decimal(n / 10)[i]);
            }
        }
        assert((n / 10) * 10 + n % 10 == n) by (nonlinear_arith);
    }
}

proof fn lemma_first_index_at(s: Seq<char>, c: char, i: int)
    requires
        0 <= i < s.len(),
        s[i] == c,
        forall|j: int| 0 <= j < i ==> s[j] != c,
    ensures
        first_index(s, c) == Some(i),
{
    lemma_first_index_range(s, c);
    let k = first_index(s, c)->0;
    if k < i {
        assert(s[k] != c);
    } else if k > i {
    }
}

/// Splitting at tabs takes a tab-free first piece off the front.
pub proof fn lemma_segments_front(a: Seq<char>, b: Seq<char>)
    requires
        !a.contains('\t'),
    ensures
        segments(a + seq!['\t'] + b, '\t') == seq![a] + segments(b, '\t'),
{
    let s = a + seq!['\t'] + b;
    assert forall|j: int| 0 <= j < a.len() implies s[j] != '\t' by {
        assert(s[j] == a[j]);
    }
    lemma_first_index_at(s, '\t', a.len() as int);
    lemma_segments_step(s, '\t', a.len() as int);
    assert(s.subrange(0, a.len() as int) =~= a);
    assert(s.subrange(a.len() as int + 1, s.len() as int) =~= b);
}

proof fn lemma_decimal_no_tab(n: nat)
    ensures
        !decimal(n).contains('\t'),
{
    lemma_decimal_reads_back(n);
    if decimal(n).contains('\t') {
        let i = choose|i: int| 0 <= i < decimal(n).len() && decimal(n)[i] == '\t';
        assert(is_digit(decimal(n)[i]));
    }
}

proof fn lemma_links_fields(x: Seq<char>, links: Seq<u32>)
    requires
        !x.contains('\t'),
    ensures
        segments(x + links_text(links), '\t') == seq![x] + links.map_values(|l: u32| decimal(l as nat)),
    decreases links.len(),
{
    if links.len() == 0 {
        assert(x + links_text(links) =~= x);
        if x.contains('\t') {
        }
        lemma_segments_last(x, '\t');
        assert(links.map_values(|l: u32| decimal(l as nat)) =~= Seq::<Seq<char>>::empty());
        assert(seq![x] + Seq::<Seq<char>>::empty() =~= seq![x]);
    } else {
        let d = decimal(links[0] as nat);
        let rest = links.drop_first();
        lemma_decimal_no_tab(links[0] as nat);
        lemma_links_fields(d, rest);
        assert(x + links_text(links) =~= x + seq!['\t'] + (d + links_text(rest)));
        lemma_segments_front(x, d + links_text(rest));
        assert(seq![d] + rest.map_values(|l: u32| decimal(l as nat)) =~= links.map_values(
            |l: u32| decimal(l as nat),
        ));
        assert(seq![x] + (seq![d] + rest.map_values(|l: u32| decimal(l as nat))) =~= seq![x]
            + links.map_values(|l: u32| decimal(l as nat)));
    }
}

/// Reading back the line written for a node gives its id, its name and its
/// link list, when the name holds no tab.
pub proof fn lemma_tsv_round_trip(id: u32, name: Seq<char>, links: Seq<u32>)
    requires
        !name.contains('\t'),
    ensures
        segments(tsv_line(id, name, links), '\t').len() >= 2,
        parsed_u32(segments(tsv_line(id, name, links), '\t')[0]) == Some(id),
        segments(tsv_line(id, name, links), '\t')[1] == name,
        link_fields(segments(tsv_line(id, name, links), '\t')).len() == links.len(),
        forall|i: int|
            0 <= i < links.len() ==> parsed_u32(
                #[trigger] link_fields(segments(tsv_line(id, name, links), '\t'))[i],
            ) == Some(links[i]),
{
    let line = tsv_line(id, name, links);
    lemma_decimal_no_tab(id as nat);
    lemma_links_fields(name, links);
    assert(line =~= decimal(id as nat) + seq!['\t'] + (name + links_text(links)));
    lemma_segments_front(decimal(id as nat), name + links_text(links));
    let f = segments(line, '\t');
    let m = links.map_values(|l: u32| decimal(l as nat));
    assert(f =~= seq![decimal(id as nat), name] + m);
    lemma_decimal_reads_back(id as nat);
    if links.len() > 0 {
        lemma_decimal_reads_back(links[0] as nat);
        assert(f[2] == decimal(links[0] as nat));
        assert(link_fields(f) =~= m);
    } else {
        assert(link_fields(f) =~= m);
    }
    assert forall|i: int| 0 <= i < links.len() implies parsed_u32(#[trigger] link_fields(f)[i]) == Some(links[i]) by {
        lemma_decimal_reads_back(links[i] as nat);
    }
}

/// The lines written for a graph with these names and link lists, without
/// line breaks.
pub open spec fn graph_lines(names: Seq<Seq<char>>, adj: Seq<Seq<u32>>) -> Seq<Seq<char>> {
    Seq::new(names.len(), |i: int| tsv_line(i as u32, names[i], adj[i]))
}

/// Loading the lines written for a graph gives back its names, ids and link
/// lists, when no name holds a tab.
pub proof fn lemma_load_write(g: WikipediaAnalysis)
    requires
        g.wf(),
        forall|i: int| 0 <= i < g.article_map@.len() ==> !(#[trigger] g.article_map@[i]).contains('\t'),
    ensures
        loads(graph_lines(g.article_map@, g.adj())),
        record_names(graph_lines(g.article_map@, g.adj())) == g.article_map@,
        record_links(graph_lines(g.article_map@, g.adj())) == g.adj(),
{
    let names = g.article_map@;
    let adj = g.adj();
    let lines = graph_lines(names, adj);
    g.article_map.lemma_len_bound();
    g.article_map.lemma_distinct();
    assert forall|i: int| 0 <= i < lines.len() implies #[trigger] record_of(lines[i]) == Some((i as u32, names[i], adj[i])) by {
        lemma_tsv_round_trip(i as u32, names[i], adj[i]);
        let f = segments(lines[i], '\t');
        let lf = link_fields(f);
        assert(Seq::new(lf.len(), |j: int| parsed_u32(lf[j])->0) =~= adj[i]);
    }
    assert(record_names(lines) =~= names);
    assert(record_links(lines) =~= adj);
}

} // verus!
