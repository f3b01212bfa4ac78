//! The inflection index: an in-memory mapping from a normalized inflected
//! surface form to the ordered list of (lemma, grammatical tag) pairs it can
//! stand for.
//!
//! The index is built once from a tab-delimited source text: each non-blank,
//! non-comment line carries at least three tab-separated fields — inflected
//! form, lemma, tag.  Inflected form and lemma are lowercased on load.
//! Malformed lines are skipped; loading never fails.  Lines sharing an
//! inflected form append to that form's list in source order.

use vstd::prelude::*;

use crate::text::lemma_views_of;
use crate::text::lemma_views_of_push;
use crate::text::lower_of;
use crate::text::lowercased;
use crate::text::trim_of;
use crate::text::trimmed;
use crate::text::views_of;

verus! {

/// Splits a character sequence at every occurrence of `sep`.  Every input
/// has at least one (possibly empty) field; no field contains `sep`.
pub open spec fn split_on(s: Seq<char>, sep: char) -> Seq<Seq<char>>
    decreases s.len(),
{
    if s.len() == 0 {
        seq![Seq::<char>::empty()]
    } else if s[0] == sep {
        seq![Seq::<char>::empty()].add(split_on(s.drop_first(), sep))
    } else {
        let rest = split_on(s.drop_first(), sep);
        seq![seq![s[0]].add(rest[0])].add(rest.drop_first())
    }
}

/// If the first occurrence of `sep` in `t` is at position `k` (or absent,
/// with `k == t.len()`), the split takes `t.take(k)` as its first field and
/// continues after the separator.
proof fn lemma_split_on_at(t: Seq<char>, sep: char, k: int)
    requires
        0 <= k <= t.len(),
        forall|m: int| 0 <= m < k ==> t[m] != sep,
        k < t.len() ==> t[k] == sep,
    ensures
        k == t.len() ==> split_on(t, sep) == seq![t],
        k < t.len() ==> split_on(t, sep) == seq![t.take(k)].add(split_on(t.skip(k + 1), sep)),
    decreases t.len(),
{
    if k == 0 {
        if t.len() == 0 {
            assert(t =~= Seq::<char>::empty());
        } else {
            assert(t.take(0) =~= Seq::<char>::empty());
            assert(t.skip(1) =~= t.drop_first());
        }
    } else {
        let d = t.drop_first();
        lemma_split_on_at(d, sep, k - 1);
        let rest = split_on(d, sep);
        if k == t.len() {
            assert(rest == seq![d]);
            assert(seq![t[0]].add(rest[0]) =~= t);
            assert(rest.drop_first() =~= Seq::<Seq<char>>::empty());
            assert(split_on(t, sep) =~= seq![t]);
        } else {
            assert(rest == seq![d.take(k - 1)].add(split_on(d.skip(k), sep)));
            assert(rest[0] == d.take(k - 1));
            assert(seq![t[0]].add(d.take(k - 1)) =~= t.take(k));
            assert(d.skip(k) =~= t.skip(k + 1));
            assert(rest.drop_first() =~= split_on(t.skip(k + 1), sep));
            assert(split_on(t, sep) =~= seq![t.take(k)].add(split_on(t.skip(k + 1), sep)));
        }
    }
}

/// Splits a string at every occurrence of `sep`, yielding the fields as
/// fresh strings.
pub fn split_on_char(s: &str, sep: char) -> (r: Vec<String>)
    ensures
        views_of(r@) == split_on(s@, sep),
{
    let n: usize = s.unicode_len();
    let mut out: Vec<String> = Vec::new();
    let mut start: usize = 0;
    let mut i: usize = 0;
    proof {
        assert(views_of(out@).add(split_on(s@.skip(0), sep)) =~= split_on(s@.skip(0), sep));
        assert(s@.skip(0) =~= s@);
    }
    while i < n
        invariant
            start <= i <= n,
            n == s@.len(),
            forall|m: int| start <= m < i ==> s@[m] != sep,
            split_on(s@, sep) == views_of(out@).add(split_on(s@.skip(start as int), sep)),
        decreases n - i,
    {
        if s.get_char(i) == sep {
            let field = s.substring_char(start, i).to_owned();
            let ghost out0 = out@;
            out.push(field);
            proof {
                let t = s@.skip(start as int);
                let k = i - start;
                assert forall|m: int| 0 <= m < k implies t[m] != sep by {
                    assert(t[m] == s@[start + m]);
                }
                assert(t[k as int] == s@[i as int]);
                lemma_split_on_at(t, sep, k as int);
                assert(t.take(k as int) =~= s@.subrange(start as int, i as int));
                assert(t.skip(k + 1) =~= s@.skip(i + 1));
                lemma_views_of_push(out0, out@.last());
                assert(out@.drop_last() =~= out0);
                assert(views_of(out0).add(seq![s@.subrange(start as int, i as int)].add(split_on(s@.skip(i + 1), sep))) =~= views_of(out@).add(split_on(s@.skip(i + 1), sep)));
            }
            start = i + 1;
        }
        i += 1;
    }
    let field = s.substring_char(start, n).to_owned();
    let ghost out0 = out@;
    out.push(field);
    proof {
        let t = s@.skip(start as int);
        let k = n - start;
        assert forall|m: int| 0 <= m < k implies t[m] != sep by {
            assert(t[m] == s@[start + m]);
        }
        lemma_split_on_at(t, sep, k as int);
        assert(t =~= s@.subrange(start as int, n as int));
        lemma_views_of_push(out0, out@.last());
        assert(out@.drop_last() =~= out0);
        assert(views_of(out@) =~= views_of(out0).add(seq![t]));
    }
    out
}

/// The views of a sequence of string pairs.
pub open spec fn pair_views(s: Seq<(String, String)>) -> Seq<(Seq<char>, Seq<char>)>
    decreases s.len(),
{
    if s.len() == 0 {
        Seq::empty()
    } else {
        pair_views(s.drop_last()).push((s.last().0@, s.last().1@))
    }
}

pub proof fn lemma_pair_views(s: Seq<(String, String)>)
    ensures
        pair_views(s).len() == s.len(),
        forall|i: int| 0 <= i < s.len() ==> #[trigger] pair_views(s)[i] == (s[i].0@, s[i].1@),
    decreases s.len(),
{
    if s.len() > 0 {
        lemma_pair_views(s.drop_last());
    }
}

proof fn lemma_pair_views_push(s: Seq<(String, String)>, p: (String, String))
    ensures
        pair_views(s.push(p)) == pair_views(s).push((p.0@, p.1@)),
{
    assert(s.push(p).drop_last() =~= s);
}

/// The lemmas of a list of (lemma, tag) pairs, in order.
pub open spec fn firsts(ps: Seq<(Seq<char>, Seq<char>)>) -> Seq<Seq<char>>
    decreases ps.len(),
{
    if ps.len() == 0 {
        Seq::empty()
    } else {
        firsts(ps.drop_last()).push(ps.last().0)
    }
}

pub proof fn lemma_firsts(ps: Seq<(Seq<char>, Seq<char>)>)
    ensures
        firsts(ps).len() == ps.len(),
        forall|i: int| 0 <= i < ps.len() ==> #[trigger] firsts(ps)[i] == ps[i].0,
    decreases ps.len(),
{
    if ps.len() > 0 {
        lemma_firsts(ps.drop_last());
    }
}

/// One inflected form with its (lemma, tag) candidates, in source order.
pub struct InflectionRecord {
    pub inflected: String,
    pub pairs: Vec<(String, String)>,
}

/// No two records share an inflected form.
pub open spec fn distinct_keys(rs: Seq<InflectionRecord>) -> bool {
    forall|i: int, j: int|
        0 <= i < rs.len() && 0 <= j < rs.len() && i != j ==> (#[trigger] rs[i]).inflected@ != (
        #[trigger] rs[j]).inflected@
}

/// The mapping the records stand for.
pub open spec fn index_view_of(rs: Seq<InflectionRecord>) -> Map<Seq<char>, Seq<(Seq<char>, Seq<char>)>>
    decreases rs.len(),
{
    if rs.len() == 0 {
        Map::empty()
    } else {
        index_view_of(rs.drop_last()).insert(rs.last().inflected@, pair_views(rs.last().pairs@))
    }
}

proof fn lemma_index_view_contains(rs: Seq<InflectionRecord>)
    ensures
        forall|k: Seq<char>|
            #[trigger] index_view_of(rs).contains_key(k) <==> exists|i: int|
                0 <= i < rs.len() && (#[trigger] rs[i]).inflected@ == k,
    decreases rs.len(),
{
    if rs.len() > 0 {
        lemma_index_view_contains(rs.drop_last());
        assert forall|k: Seq<char>| #[trigger] index_view_of(rs).contains_key(k) implies exists|i: int|
            0 <= i < rs.len() && (#[trigger] rs[i]).inflected@ == k by {
            if k == rs.last().inflected@ {
                assert(rs[rs.len() - 1].inflected@ == k);
            } else {
                assert(index_view_of(rs.drop_last()).contains_key(k));
                let i = choose|i: int|
                    0 <= i < rs.drop_last().len() && (#[trigger] rs.drop_last()[i]).inflected@ == k;
                assert(rs[i] == rs.drop_last()[i]);
                assert(rs[i].inflected@ == k);
            }
        }
        assert forall|k: Seq<char>|
            (exists|i: int| 0 <= i < rs.len() && (#[trigger] rs[i]).inflected@ == k) implies
            #[trigger] index_view_of(rs).contains_key(k) by {
            let i = choose|i: int| 0 <= i < rs.len() && (#[trigger] rs[i]).inflected@ == k;
            if i == rs.len() - 1 {
                assert(index_view_of(rs).contains_key(rs.last().inflected@));
            } else {
                assert(rs.drop_last()[i] == rs[i]);
                assert((#[trigger] rs.drop_last()[i]).inflected@ == k);
                assert(index_view_of(rs.drop_last()).contains_key(k));
            }
        }
    }
}

proof fn lemma_index_view_at(rs: Seq<InflectionRecord>, i: int)
    requires
        distinct_keys(rs),
        0 <= i < rs.len(),
    ensures
        index_view_of(rs).contains_key(rs[i].inflected@),
        index_view_of(rs)[rs[i].inflected@] == pair_views(rs[i].pairs@),
    decreases rs.len(),
{
    if i == rs.len() - 1 {
    } else {
        assert(rs.drop_last()[i] == rs[i]);
        lemma_index_view_at(rs.drop_last(), i);
        assert(rs.last().inflected@ != rs[i].inflected@);
    }
}

proof fn lemma_index_view_update(rs: Seq<InflectionRecord>, i: int, r2: InflectionRecord)
    requires
        distinct_keys(rs),
        0 <= i < rs.len(),
        r2.inflected@ == rs[i].inflected@,
    ensures
        index_view_of(rs.update(i, r2)) == index_view_of(rs).insert(
            r2.inflected@,
            pair_views(r2.pairs@),
        ),
    decreases rs.len(),
{
    let rs2 = rs.update(i, r2);
    let key = r2.inflected@;
    if i == rs.len() - 1 {
        assert(rs2.drop_last() =~= rs.drop_last());
        assert(rs2.last() == r2);
        assert(index_view_of(rs.drop_last()).insert(rs.last().inflected@, pair_views(rs.last().pairs@)).insert(
            key,
            pair_views(r2.pairs@),
        ) =~= index_view_of(rs.drop_last()).insert(key, pair_views(r2.pairs@)));
    } else {
        assert(rs2.drop_last() =~= rs.drop_last().update(i, r2));
        assert(rs2.last() == rs.last());
        assert(rs.drop_last()[i] == rs[i]);
        lemma_index_view_update(rs.drop_last(), i, r2);
        assert(rs.last().inflected@ != key);
        assert(index_view_of(rs.drop_last()).insert(key, pair_views(r2.pairs@)).insert(
            rs.last().inflected@,
            pair_views(rs.last().pairs@),
        ) =~= index_view_of(rs.drop_last()).insert(rs.last().inflected@, pair_views(rs.last().pairs@)).insert(
            key,
            pair_views(r2.pairs@),
        ));
    }
}

/// The candidates already mapped to `k`, or none.
pub open spec fn prior_pairs(
    m: Map<Seq<char>, Seq<(Seq<char>, Seq<char>)>>,
    k: Seq<char>,
) -> Seq<(Seq<char>, Seq<char>)> {
    if m.contains_key(k) {
        m[k]
    } else {
        Seq::empty()
    }
}

/// A line without its trailing carriage return, if it has one.
pub open spec fn strip_cr(l: Seq<char>) -> Seq<char> {
    if l.len() > 0 && l.last() == '\r' {
        l.drop_last()
    } else {
        l
    }
}

/// The tab-separated fields of a line.
pub open spec fn line_fields(l: Seq<char>) -> Seq<Seq<char>> {
    split_on(strip_cr(l), '\t')
}

/// A line contributes to the index exactly when it is not blank, not a
/// comment, and has at least three fields.
pub open spec fn line_wellformed(l: Seq<char>) -> bool {
    let t = strip_cr(l);
    &&& trim_of(t).len() != 0
    &&& !(t.len() > 0 && t[0] == '#')
    &&& line_fields(l).len() >= 3
}

/// How one source line changes the mapping: a well-formed line appends its
/// lowercased (lemma, tag) pair to its lowercased inflected form's list;
/// any other line changes nothing.
pub open spec fn line_insert(
    m: Map<Seq<char>, Seq<(Seq<char>, Seq<char>)>>,
    l: Seq<char>,
) -> Map<Seq<char>, Seq<(Seq<char>, Seq<char>)>> {
    if line_wellformed(l) {
        let fs = line_fields(l);
        let key = lower_of(fs[0]);
        m.insert(key, prior_pairs(m, key).push((lower_of(fs[1]), fs[2])))
    } else {
        m
    }
}

/// The mapping built from a sequence of source lines, in order.
pub open spec fn index_of_lines(ls: Seq<Seq<char>>) -> Map<Seq<char>, Seq<(Seq<char>, Seq<char>)>>
    decreases ls.len(),
{
    if ls.len() == 0 {
        Map::empty()
    } else {
        line_insert(index_of_lines(ls.drop_last()), ls.last())
    }
}

/// The mapping a whole source text describes.
pub open spec fn index_of_source(src: Seq<char>) -> Map<Seq<char>, Seq<(Seq<char>, Seq<char>)>> {
    index_of_lines(split_on(src, '\n'))
}

/// The inflection index.
pub struct InflectionIndex {
    records: Vec<InflectionRecord>,
}

impl View for InflectionIndex {
    type V = Map<Seq<char>, Seq<(Seq<char>, Seq<char>)>>;

    closed spec fn view(&self) -> Map<Seq<char>, Seq<(Seq<char>, Seq<char>)>> {
        index_view_of(self.records@)
    }
}

impl InflectionIndex {
    /// Well-formedness: one record per inflected form.
    pub closed spec fn wf(&self) -> bool {
        distinct_keys(self.records@)
    }

    /// An empty index.
    pub fn new() -> (idx: InflectionIndex)
        ensures
            idx.wf(),
            idx@ == Map::<Seq<char>, Seq<(Seq<char>, Seq<char>)>>::empty(),
    {
        InflectionIndex { records: Vec::new() }
    }

    fn find_record(&self, key: &str) -> (r: Option<usize>)
        ensures
            r matches Some(i) ==> i < self.records@.len() && self.records@[i as int].inflected@
                == key@,
            r is None ==> forall|i: int|
                0 <= i < self.records@.len() ==> (#[trigger] self.records@[i]).inflected@ != key@,
    {
        let n: usize = self.records.len();
        let mut i: usize = 0;
        while i < n
            invariant
                i <= n,
                n == self.records@.len(),
                forall|j: int| 0 <= j < i ==> (#[trigger] self.records@[j]).inflected@ != key@,
            decreases n - i,
        {
            if crate::text::string_eq_str(&self.records[i].inflected, key) {
                return Some(i);
            }
            i += 1;
        }
        None
    }

    /// Appends one (lemma, tag) candidate to the list of an inflected form,
    /// creating the form's record if it is new.
    fn add_pair(&mut self, inflected: String, lem: String, tag: String)
        requires
            old(self).wf(),
        ensures
            final(self).wf(),
            final(self)@ == old(self)@.insert(
                inflected@,
                prior_pairs(old(self)@, inflected@).push((lem@, tag@)),
            ),
    {
        let found = self.find_record(inflected.as_str());
        match found {
            Some(i) => {
                let ghost rs0 = self.records@;
                let mut rec = self.records.remove(i);
                let ghost pairs0 = rec.pairs@;
                rec.pairs.push((lem, tag));
                let ghost grec = rec;
                self.records.insert(i, rec);
                proof {
                    assert(self.records@ =~= rs0.update(i as int, grec));
                    lemma_pair_views_push(pairs0, grec.pairs@.last());
                    assert(grec.pairs@.drop_last() =~= pairs0);
                    lemma_index_view_at(rs0, i as int);
                    lemma_index_view_update(rs0, i as int, grec);
                    assert forall|a: int, b: int|
                        0 <= a < self.records@.len() && 0 <= b < self.records@.len() && a != b
                        implies (#[trigger] self.records@[a]).inflected@ != (
                    #[trigger] self.records@[b]).inflected@ by {
                        assert(self.records@[a] == rs0.update(i as int, grec)[a]);
                        assert(self.records@[b] == rs0.update(i as int, grec)[b]);
                    }
                }
            },
            None => {
                let ghost rs0 = self.records@;
                let mut pairs: Vec<(String, String)> = Vec::new();
                pairs.push((lem, tag));
                let rec = InflectionRecord { inflected, pairs };
                let ghost grec = rec;
                self.records.push(rec);
                proof {
                    assert(self.records@.drop_last() =~= rs0);
                    let p = grec.pairs@[0];
                    assert(grec.pairs@ =~= Seq::<(String, String)>::empty().push(p));
                    lemma_pair_views_push(Seq::<(String, String)>::empty(), p);
                    assert(pair_views(Seq::<(String, String)>::empty())
                        =~= Seq::<(Seq<char>, Seq<char>)>::empty());
                    lemma_index_view_contains(rs0);
                    assert(!index_view_of(rs0).contains_key(grec.inflected@));
                }
            },
        }
    }

    /// Feeds one source line into the index.
    fn add_line(&mut self, line: &str)
        requires
            old(self).wf(),
        ensures
            final(self).wf(),
            final(self)@ == line_insert(old(self)@, line@),
    {
        let ll: usize = line.unicode_len();
        let stripped: &str = if ll > 0 && line.get_char(ll - 1) == '\r' {
            let s = line.substring_char(0, ll - 1);
            proof {
                assert(s@ =~= line@.drop_last());
            }
            s
        } else {
            line
        };
        proof {
            assert(stripped@ == strip_cr(line@));
        }
        let t = trimmed(stripped);
        if t.is_empty() {
            return;
        }
        let sl: usize = stripped.unicode_len();
        if sl > 0 && stripped.get_char(0) == '#' {
            return;
        }
        let fields = split_on_char(stripped, '\t');
        proof {
            lemma_views_of(fields@);
        }
        if fields.len() < 3 {
            return;
        }
        let key = lowercased(fields[0].as_str());
        let lem = lowercased(fields[1].as_str());
        let tag = fields[2].clone();
        proof {
            assert(line_wellformed(line@));
            assert(key@ == lower_of(line_fields(line@)[0]));
            assert(lem@ == lower_of(line_fields(line@)[1]));
            assert(tag@ == line_fields(line@)[2]);
        }
        self.add_pair(key, lem, tag);
    }

    /// Builds the index from the whole source text: best-effort, skipping
    /// malformed lines, never failing.
    pub fn from_source(source: &str) -> (idx: InflectionIndex)
        ensures
            idx.wf(),
            idx@ == index_of_source(source@),
    {
        let lines = split_on_char(source, '\n');
        let mut idx = InflectionIndex { records: Vec::new() };
        proof {
            assert(views_of(lines@).take(0) =~= Seq::<Seq<char>>::empty());
        }
        let n: usize = lines.len();
        let mut i: usize = 0;
        while i < n
            invariant
                i <= n,
                n == lines@.len(),
                idx.wf(),
                idx@ == index_of_lines(views_of(lines@).take(i as int)),
            decreases n - i,
        {
            proof {
                lemma_views_of(lines@);
            }
            idx.add_line(lines[i].as_str());
            proof {
                lemma_views_of(lines@);
                assert(views_of(lines@).take(i + 1).drop_last() =~= views_of(lines@).take(
                    i as int,
                ));
                assert(views_of(lines@).take(i + 1).last() == lines@[i as int]@);
            }
            i += 1;
        }
        proof {
            lemma_views_of(lines@);
            assert(views_of(lines@).take(n as int) =~= views_of(lines@));
        }
        idx
    }

    /// The (lemma, tag) candidates recorded for a normalized form; none if
    /// the form is unknown.
    pub fn pairs_of(&self, term: &str) -> (r: Vec<(String, String)>)
        requires
            self.wf(),
        ensures
            pair_views(r@) == prior_pairs(self@, term@),
    {
        let found = self.find_record(term);
        match found {
            Some(i) => {
                let rec = &self.records[i];
                let mut out: Vec<(String, String)> = Vec::new();
                let m: usize = rec.pairs.len();
                let mut j: usize = 0;
                while j < m
                    invariant
                        j <= m,
                        m == rec.pairs@.len(),
                        out@.len() == j,
                        forall|k: int| 0 <= k < j ==> out@[k] == rec.pairs@[k],
                    decreases m - j,
                {
                    let p = &rec.pairs[j];
                    out.push((p.0.clone(), p.1.clone()));
                    j += 1;
                }
                proof {
                    assert(out@ =~= rec.pairs@);
                    lemma_index_view_at(self.records@, i as int);
                }
                out
            },
            None => {
                proof {
                    lemma_index_view_contains(self.records@);
                    if self@.contains_key(term@) {
                        let i = choose|i: int|
                            0 <= i < self.records@.len() && self.records@[i].inflected@ == term@;
                    }
                }
                Vec::new()
            },
        }
    }

    /// The candidate lemmas recorded for a normalized form, or `None` if the
    /// form has no mapping at all.
    pub fn lemmas_of(&self, term: &str) -> (r: Option<Vec<String>>)
        requires
            self.wf(),
        ensures
            r is Some <==> self@.contains_key(term@),
            r matches Some(v) ==> views_of(v@) == firsts(self@[term@]),
    {
        let found = self.find_record(term);
        match found {
            Some(i) => {
                let rec = &self.records[i];
                let mut out: Vec<String> = Vec::new();
                let m: usize = rec.pairs.len();
                let mut j: usize = 0;
                while j < m
                    invariant
                        j <= m,
                        m == rec.pairs@.len(),
                        out@.len() == j,
                        forall|k: int| 0 <= k < j ==> out@[k] == rec.pairs@[k].0,
                    decreases m - j,
                {
                    let p = &rec.pairs[j];
                    out.push(p.0.clone());
                    j += 1;
                }
                proof {
                    lemma_index_view_at(self.records@, i as int);
                    lemma_index_view_contains(self.records@);
                    lemma_views_of(out@);
                    lemma_pair_views(rec.pairs@);
                    lemma_firsts(pair_views(rec.pairs@));
                    assert(views_of(out@) =~= firsts(pair_views(rec.pairs@)));
                }
                Some(out)
            },
            None => {
                proof {
                    lemma_index_view_contains(self.records@);
                    if self@.contains_key(term@) {
                        let i = choose|i: int|
                            0 <= i < self.records@.len() && self.records@[i].inflected@ == term@;
                    }
                }
                None
            },
        }
    }

    /// Empties the index, as the shutdown sequence does.
    pub fn clear(&mut self)
        ensures
            final(self).wf(),
            final(self)@ == Map::<Seq<char>, Seq<(Seq<char>, Seq<char>)>>::empty(),
    {
        self.records.clear();
    }
}

} // verus!
