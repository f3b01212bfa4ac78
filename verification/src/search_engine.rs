//! The resolution engine: normalizes a raw query, expands it through the
//! inflection index into candidate lemmas, gathers the store's entries for
//! each candidate, merges and deduplicates them by identifier, and keeps
//! usage counters as a side effect.
//!
//! The merged entry list is returned sorted by ascending identifier, which
//! deliberately discards the store's frequency order; the provenance fields
//! record which lemmas actually produced entries and whether inflection
//! expansion applied.

use vstd::prelude::*;

use crate::clock::instant_now;
use crate::clock::millis_since;
use crate::database::clipped;
use crate::database::distinct_ids;
use crate::database::distinct_lemmas;
use crate::database::entries_for;
use crate::database::lemma_entries_for_membership;
use crate::database::lemma_prefix_lemmas_matches;
use crate::database::lemma_push_contains;
use crate::database::prefix_lemmas;
use crate::database::prefix_matches;
use crate::database::Database;
use crate::database::DictionaryEntry;
use crate::inflection::firsts;
use crate::inflection::index_of_source;
use crate::inflection::pair_views;
use crate::inflection::prior_pairs;
use crate::inflection::InflectionIndex;
use crate::text::lemma_views_of;
use crate::text::lemma_views_of_push;
use crate::text::normalize_term;
use crate::text::normalized;
use crate::text::views_of;

verus! {

/// What one resolution call returns: the merged entries, the elapsed time,
/// the entry count, the lemmas that actually produced entries (joined for
/// display), and whether inflection expansion applied.
pub struct SearchResult {
    pub entries: Vec<DictionaryEntry>,
    pub search_time_ms: u64,
    pub total_results: usize,
    pub query_used: String,
    pub found_inflections: bool,
}

/// The process-wide usage counters.  `cache_hits` is reserved for a caching
/// layer that does not exist yet; it is reported but never incremented.
#[derive(Debug)]
struct SearchStats {
    total_searches: u64,
    cache_hits: u64,
    inflection_lookups: u64,
    direct_lookups: u64,
}

/// A snapshot of the usage counters together with the store's totals.
#[derive(Debug, Clone, PartialEq)]
pub struct SearchEngineStats {
    pub total_searches: u64,
    pub cache_hits: u64,
    pub inflection_lookups: u64,
    pub direct_lookups: u64,
    pub total_dictionary_entries: i64,
    pub unique_lemmas: i64,
}

/// The engine: the lexical store, the inflection index, and the counters.
pub struct SearchEngine {
    database: Database,
    inflection_map: InflectionIndex,
    stats: SearchStats,
}

/// A monotonic counter after one more event; it saturates rather than wrap.
pub open spec fn bumped(c: u64) -> u64 {
    if c == u64::MAX {
        c
    } else {
        (c + 1) as u64
    }
}

fn bump(c: u64) -> (r: u64)
    ensures
        r == bumped(c),
{
    if c == u64::MAX {
        c
    } else {
        c + 1
    }
}

/// The candidate lemmas for a normalized term: the mapped lemmas when the
/// index knows the term, the term itself otherwise.
pub open spec fn candidate_lemmas(
    idx: Map<Seq<char>, Seq<(Seq<char>, Seq<char>)>>,
    term: Seq<char>,
) -> Seq<Seq<char>> {
    if idx.contains_key(term) {
        firsts(idx[term])
    } else {
        seq![term]
    }
}

/// The store entries gathered for the candidates, concatenated in candidate
/// order.
pub open spec fn gathered_entries(
    db: Seq<DictionaryEntry>,
    cands: Seq<Seq<char>>,
) -> Seq<DictionaryEntry>
    decreases cands.len(),
{
    if cands.len() == 0 {
        Seq::empty()
    } else {
        gathered_entries(db, cands.drop_last()).add(entries_for(db, cands.last()))
    }
}

/// The candidates that yielded at least one entry, in candidate order.
pub open spec fn searched_of(db: Seq<DictionaryEntry>, cands: Seq<Seq<char>>) -> Seq<Seq<char>>
    decreases cands.len(),
{
    if cands.len() == 0 {
        Seq::empty()
    } else {
        let rest = searched_of(db, cands.drop_last());
        if entries_for(db, cands.last()).len() > 0 {
            rest.push(cands.last())
        } else {
            rest
        }
    }
}

/// The display form of a list of lemmas: comma-joined.
pub open spec fn joined(ts: Seq<Seq<char>>) -> Seq<char>
    decreases ts.len(),
{
    if ts.len() == 0 {
        Seq::empty()
    } else if ts.len() == 1 {
        ts[0]
    } else {
        joined(ts.drop_last()) + ", "@ + ts.last()
    }
}

/// The provenance string of a resolution: the comma-joined lemmas that
/// yielded entries, or the normalized term itself when none did.
pub open spec fn query_shown(
    db: Seq<DictionaryEntry>,
    idx: Map<Seq<char>, Seq<(Seq<char>, Seq<char>)>>,
    term: Seq<char>,
) -> Seq<char> {
    let norm = normalized(term);
    let searched = searched_of(db, candidate_lemmas(idx, norm));
    if searched.len() == 0 {
        norm
    } else {
        joined(searched)
    }
}

/// Entry identifiers strictly ascend through the sequence.
pub open spec fn strictly_sorted_by_id(s: Seq<DictionaryEntry>) -> bool {
    forall|i: int, j: int|
        0 <= i < j < s.len() ==> (#[trigger] s[i]).id < (#[trigger] s[j]).id
}

/// What `search` promises of its entry list: identifiers strictly ascend,
/// and the list holds exactly the store's entries whose lemma is among the
/// candidate lemmas of the normalized term.
pub open spec fn resolution_ok(
    db: Seq<DictionaryEntry>,
    idx: Map<Seq<char>, Seq<(Seq<char>, Seq<char>)>>,
    term: Seq<char>,
    entries: Seq<DictionaryEntry>,
) -> bool {
    &&& strictly_sorted_by_id(entries)
    &&& forall|e: DictionaryEntry|
        #[trigger] entries.contains(e) <==> db.contains(e) && candidate_lemmas(
            idx,
            normalized(term),
        ).contains(e.lemma@)
}

/// When the direct-fallback lookup fires: the normalized term has no
/// inflection mapping and its own lookup yields nothing.
pub open spec fn fallback_used(
    db: Seq<DictionaryEntry>,
    idx: Map<Seq<char>, Seq<(Seq<char>, Seq<char>)>>,
    term: Seq<char>,
) -> bool {
    &&& !idx.contains_key(normalized(term))
    &&& entries_for(db, normalized(term)).len() == 0
}

/// An element is in `a + b` exactly when it is in `a` or in `b`.
pub proof fn lemma_add_contains<A>(a: Seq<A>, b: Seq<A>)
    ensures
        forall|x: A| #[trigger] a.add(b).contains(x) <==> a.contains(x) || b.contains(x),
{
    assert forall|x: A| #[trigger] a.add(b).contains(x) implies a.contains(x) || b.contains(x) by {
        let i = choose|i: int| 0 <= i < a.add(b).len() && a.add(b)[i] == x;
        if i < a.len() {
            assert(a[i] == x);
        } else {
            assert(b[i - a.len()] == x);
        }
    }
    assert forall|x: A| a.contains(x) || b.contains(x) implies #[trigger] a.add(b).contains(x) by {
        if a.contains(x) {
            let i = choose|i: int| 0 <= i < a.len() && a[i] == x;
            assert(a.add(b)[i] == x);
        } else {
            let i = choose|i: int| 0 <= i < b.len() && b[i] == x;
            assert(a.add(b)[a.len() + i] == x);
        }
    }
}

/// The gathered entries are exactly the store's entries whose lemma is a
/// candidate.
pub proof fn lemma_gathered_membership(db: Seq<DictionaryEntry>, cands: Seq<Seq<char>>)
    ensures
        forall|x: DictionaryEntry|
            #[trigger] gathered_entries(db, cands).contains(x) <==> db.contains(x)
                && cands.contains(x.lemma@),
    decreases cands.len(),
{
    if cands.len() == 0 {
    } else {
        lemma_gathered_membership(db, cands.drop_last());
        lemma_entries_for_membership(db, cands.last());
        lemma_add_contains(gathered_entries(db, cands.drop_last()), entries_for(db, cands.last()));
        assert forall|x: DictionaryEntry|
            #[trigger] gathered_entries(db, cands).contains(x) <==> db.contains(x)
                && cands.contains(x.lemma@) by {
            lemma_push_contains(cands.drop_last(), cands.last(), x.lemma@);
            assert(cands.drop_last().push(cands.last()) =~= cands);
        }
    }
}

/// Two strictly identifier-sorted lists with the same members are the same
/// list.
pub proof fn lemma_strictly_sorted_unique(a: Seq<DictionaryEntry>, b: Seq<DictionaryEntry>)
    requires
        strictly_sorted_by_id(a),
        strictly_sorted_by_id(b),
        forall|x: DictionaryEntry| a.contains(x) <==> b.contains(x),
    ensures
        a == b,
    decreases a.len(),
{
    if a.len() == 0 {
        if b.len() > 0 {
            assert(b.contains(b[0]));
        }
        assert(a =~= b);
    } else {
        assert(a.contains(a[0]));
        assert(b.contains(a[0]));
        let j = choose|j: int| 0 <= j < b.len() && b[j] == a[0];
        assert(b.contains(b[0]));
        assert(a.contains(b[0]));
        let i = choose|i: int| 0 <= i < a.len() && a[i] == b[0];
        assert(a[0].id <= a[i].id);
        assert(b[0].id <= b[j].id);
        assert(a[0].id == b[0].id);
        if i != 0 {
            assert(a[0].id < a[i].id);
        }
        assert(a[0] == b[0]);
        let a1 = a.drop_first();
        let b1 = b.drop_first();
        assert forall|x: DictionaryEntry| a1.contains(x) <==> b1.contains(x) by {
            lemma_drop_first_contains(a, x);
            lemma_drop_first_contains(b, x);
        }
        lemma_strictly_sorted_unique(a1, b1);
        assert forall|k: int| 0 <= k < a.len() implies a[k] == b[k] by {
            if k > 0 {
                assert(a[k] == a1[k - 1]);
                assert(b[k] == b1[k - 1]);
            }
        }
        assert(a =~= b);
    }
}

/// In a strictly sorted list the head occurs only at the head, so the tail
/// holds exactly the other members.
proof fn lemma_drop_first_contains(s: Seq<DictionaryEntry>, x: DictionaryEntry)
    requires
        strictly_sorted_by_id(s),
        s.len() > 0,
    ensures
        s.drop_first().contains(x) <==> s.contains(x) && x != s[0],
{
    if s.drop_first().contains(x) {
        let i = choose|i: int| 0 <= i < s.drop_first().len() && s.drop_first()[i] == x;
        assert(s[i + 1] == x);
        assert(s[0].id < s[i + 1].id);
    }
    if s.contains(x) && x != s[0] {
        let i = choose|i: int| 0 <= i < s.len() && s[i] == x;
        assert(i != 0);
        assert(s.drop_first()[i - 1] == x);
    }
}

/// Inserts an entry into a strictly identifier-sorted list, keeping one
/// occurrence per identifier.
fn insert_unique(out: &mut Vec<DictionaryEntry>, e: DictionaryEntry)
    requires
        strictly_sorted_by_id(old(out)@),
        forall|i: int|
            0 <= i < old(out)@.len() && (#[trigger] old(out)@[i]).id == e.id ==> old(out)@[i] == e,
    ensures
        strictly_sorted_by_id(final(out)@),
        forall|x: DictionaryEntry|
            #[trigger] final(out)@.contains(x) <==> old(out)@.contains(x) || x == e,
{
    let mut k: usize = 0;
    while k < out.len() && out[k].id < e.id
        invariant
            k <= out@.len(),
            out@ == old(out)@,
            forall|j: int| 0 <= j < k ==> (#[trigger] out@[j]).id < e.id,
        decreases out@.len() - k,
    {
        k += 1;
    }
    if k < out.len() && out[k].id == e.id {
        proof {
            assert(out@[k as int] == e);
            assert forall|x: DictionaryEntry|
                #[trigger] out@.contains(x) <==> old(out)@.contains(x) || x == e by {
                if x == e {
                    assert(out@[k as int] == x);
                }
            }
        }
        return;
    }
    let ghost s0 = out@;
    let ghost pos = k as int;
    out.insert(k, e);
    proof {
        s0.insert_ensures(pos, e);
        assert forall|i: int, j: int| 0 <= i < j < out@.len() implies (#[trigger] out@[i]).id < (
        #[trigger] out@[j]).id by {
            let a = if i < pos { s0[i] } else if i == pos { e } else { s0[i - 1] };
            let b = if j < pos { s0[j] } else if j == pos { e } else { s0[j - 1] };
            assert(out@[i] == a);
            assert(out@[j] == b);
        }
        assert forall|x: DictionaryEntry| #[trigger] out@.contains(x) implies s0.contains(x) || x
            == e by {
            let i = choose|i: int| 0 <= i < out@.len() && out@[i] == x;
            if i < pos {
                assert(s0[i] == x);
            } else if i > pos {
                assert(s0[i - 1] == x);
            }
        }
        assert forall|x: DictionaryEntry| s0.contains(x) || x == e implies #[trigger] out@.contains(
            x,
        ) by {
            if x == e {
                assert(out@[pos] == x);
            } else {
                let i = choose|i: int| 0 <= i < s0.len() && s0[i] == x;
                if i < pos {
                    assert(out@[i] == x);
                } else {
                    assert(out@[i + 1] == x);
                }
            }
        }
    }
}

/// Sorts the gathered entries by ascending identifier and drops duplicate
/// identifiers, keeping one occurrence each.
fn sort_dedup_by_id(src: Vec<DictionaryEntry>) -> (r: Vec<DictionaryEntry>)
    requires
        forall|i: int, j: int|
            0 <= i < src@.len() && 0 <= j < src@.len() && (#[trigger] src@[i]).id == (
            #[trigger] src@[j]).id ==> src@[i] == src@[j],
    ensures
        strictly_sorted_by_id(r@),
        forall|x: DictionaryEntry| #[trigger] r@.contains(x) <==> src@.contains(x),
{
    let ghost s0 = src@;
    let mut v = src;
    let mut out: Vec<DictionaryEntry> = Vec::new();
    proof {
        assert(v@ =~= s0.take(v@.len() as int));
        assert(s0.skip(v@.len() as int) =~= Seq::<DictionaryEntry>::empty());
    }
    while v.len() > 0
        invariant
            v@.len() <= s0.len(),
            v@ == s0.take(v@.len() as int),
            strictly_sorted_by_id(out@),
            forall|x: DictionaryEntry|
                #[trigger] out@.contains(x) <==> s0.skip(v@.len() as int).contains(x),
            forall|i: int, j: int|
                0 <= i < s0.len() && 0 <= j < s0.len() && (#[trigger] s0[i]).id == (
                #[trigger] s0[j]).id ==> s0[i] == s0[j],
        decreases v@.len(),
    {
        let ghost m = v@.len() as int;
        let e = v.pop().unwrap();
        proof {
            assert(e == s0.take(m)[m - 1]);
            assert(e == s0[m - 1]);
            assert(v@ =~= s0.take(m - 1));
            // every element of `out` is an element of `s0`
            assert forall|i: int|
                0 <= i < out@.len() && (#[trigger] out@[i]).id == e.id implies out@[i] == e by {
                assert(out@.contains(out@[i]));
                let k = choose|k: int| 0 <= k < s0.skip(m).len() && s0.skip(m)[k] == out@[i];
                assert(s0[m + k] == out@[i]);
            }
        }
        insert_unique(&mut out, e);
        proof {
            assert forall|x: DictionaryEntry|
                #[trigger] s0.skip(m - 1).contains(x) <==> s0.skip(m).contains(x) || x == e by {
                if s0.skip(m - 1).contains(x) {
                    let k = choose|k: int|
                        0 <= k < s0.skip(m - 1).len() && (#[trigger] s0.skip(m - 1)[k]) == x;
                    if k == 0 {
                        assert(s0[m - 1] == x);
                    } else {
                        assert(s0.skip(m)[k - 1] == x);
                    }
                }
                if s0.skip(m).contains(x) {
                    let k = choose|k: int| 0 <= k < s0.skip(m).len() && s0.skip(m)[k] == x;
                    assert(s0.skip(m - 1)[k + 1] == x);
                }
                if x == e {
                    assert(s0.skip(m - 1)[0] == x);
                }
            }
        }
    }
    proof {
        assert(s0.skip(0) =~= s0);
    }
    out
}

/// Joins display strings with a comma and a space.
fn join_comma(parts: &Vec<String>) -> (r: String)
    ensures
        r@ == joined(views_of(parts@)),
{
    let mut out = String::new();
    let n: usize = parts.len();
    let mut i: usize = 0;
    proof {
        lemma_views_of(parts@);
        assert(views_of(parts@).take(0) =~= Seq::<Seq<char>>::empty());
    }
    while i < n
        invariant
            i <= n,
            n == parts@.len(),
            out@ == joined(views_of(parts@).take(i as int)),
        decreases n - i,
    {
        if i > 0 {
            out.append(", ");
        }
        out.append(parts[i].as_str());
        proof {
            lemma_views_of(parts@);
            let ts = views_of(parts@);
            assert(ts.take(i + 1).drop_last() =~= ts.take(i as int));
            assert(ts.take(i + 1).last() == parts@[i as int]@);
            if i == 0 {
                assert(out@ =~= ts.take(1)[0]);
            }
        }
        i += 1;
    }
    proof {
        lemma_views_of(parts@);
        assert(views_of(parts@).take(n as int) =~= views_of(parts@));
    }
    out
}

impl SearchEngine {
    /// The store's contents, as the contracts speak of them.
    pub closed spec fn db_view(&self) -> Seq<DictionaryEntry> {
        self.database@
    }

    /// The inflection mapping, as the contracts speak of it.
    pub closed spec fn idx_view(&self) -> Map<Seq<char>, Seq<(Seq<char>, Seq<char>)>> {
        self.inflection_map@
    }

    pub closed spec fn total_searches(&self) -> u64 {
        self.stats.total_searches
    }

    pub closed spec fn cache_hits(&self) -> u64 {
        self.stats.cache_hits
    }

    pub closed spec fn inflection_lookups(&self) -> u64 {
        self.stats.inflection_lookups
    }

    pub closed spec fn direct_lookups(&self) -> u64 {
        self.stats.direct_lookups
    }

    /// Well-formedness of the engine's two read-mostly structures.
    pub closed spec fn wf(&self) -> bool {
        &&& self.database.wf()
        &&& self.inflection_map.wf()
    }

    /// The store is well formed and its identifiers are unique.
    proof fn lemma_wf_store(&self)
        requires
            self.wf(),
        ensures
            distinct_ids(self.db_view()),
            self.db_view().len() <= i64::MAX,
    {
    }

    /// Builds an engine over an already-loaded store and the text of the
    /// inflection source.
    pub fn new(database: Database, inflection_source: &str) -> (engine: SearchEngine)
        requires
            database.wf(),
        ensures
            engine.wf(),
            engine.db_view() == database@,
            engine.idx_view() == index_of_source(inflection_source@),
            engine.total_searches() == 0,
            engine.cache_hits() == 0,
            engine.inflection_lookups() == 0,
            engine.direct_lookups() == 0,
    {
        let inflection_map = InflectionIndex::from_source(inflection_source);
        SearchEngine {
            database,
            inflection_map,
            stats: SearchStats {
                total_searches: 0,
                cache_hits: 0,
                inflection_lookups: 0,
                direct_lookups: 0,
            },
        }
    }

    /// Candidate expansion for an already-normalized term, counting one
    /// inflection lookup when the index knows the term.
    fn get_search_lemmas(&mut self, term: &str) -> (r: (Vec<String>, bool))
        requires
            old(self).wf(),
        ensures
            final(self).wf(),
            final(self).database == old(self).database,
            final(self).inflection_map == old(self).inflection_map,
            final(self).stats.total_searches == old(self).stats.total_searches,
            final(self).stats.cache_hits == old(self).stats.cache_hits,
            final(self).stats.direct_lookups == old(self).stats.direct_lookups,
            r.1 == old(self).idx_view().contains_key(term@),
            final(self).stats.inflection_lookups == if r.1 {
                bumped(old(self).stats.inflection_lookups)
            } else {
                old(self).stats.inflection_lookups
            },
            views_of(r.0@) == candidate_lemmas(old(self).idx_view(), term@),
    {
        let found = self.inflection_map.lemmas_of(term);
        match found {
            Some(lemmas) => {
                self.stats.inflection_lookups = bump(self.stats.inflection_lookups);
                (lemmas, true)
            },
            None => {
                let mut v: Vec<String> = Vec::new();
                v.push(term.to_owned());
                proof {
                    lemma_views_of_push(Seq::<String>::empty(), v@.last());
                    assert(v@ =~= Seq::<String>::empty().push(v@.last()));
                    assert(views_of(Seq::<String>::empty()).push(term@) =~= seq![term@]);
                }
                (v, false)
            },
        }
    }

    /// Resolves a raw term: normalize, expand through the inflection index,
    /// gather the store's entries per candidate lemma, fall back to a direct
    /// lookup when no mapping existed and nothing was found, then merge and
    /// deduplicate by identifier.
    pub fn search(&mut self, term: &str) -> (r: Result<SearchResult, String>)
        requires
            old(self).wf(),
        ensures
            final(self).wf(),
            final(self).db_view() == old(self).db_view(),
            final(self).idx_view() == old(self).idx_view(),
            r is Ok,
            r matches Ok(res) ==> resolution_ok(
                old(self).db_view(),
                old(self).idx_view(),
                term@,
                res.entries@,
            ),
            r matches Ok(res) ==> res.found_inflections == old(self).idx_view().contains_key(
                normalized(term@),
            ),
            r matches Ok(res) ==> res.total_results == res.entries@.len(),
            r matches Ok(res) ==> res.query_used@ == query_shown(
                old(self).db_view(),
                old(self).idx_view(),
                term@,
            ),
            final(self).total_searches() == bumped(old(self).total_searches()),
            final(self).cache_hits() == old(self).cache_hits(),
            final(self).inflection_lookups() == if old(self).idx_view().contains_key(
                normalized(term@),
            ) {
                bumped(old(self).inflection_lookups())
            } else {
                old(self).inflection_lookups()
            },
            final(self).direct_lookups() == if fallback_used(
                old(self).db_view(),
                old(self).idx_view(),
                term@,
            ) {
                bumped(old(self).direct_lookups())
            } else {
                old(self).direct_lookups()
            },
    {
        let search_start = instant_now();
        let norm = normalize_term(term);
        self.stats.total_searches = bump(self.stats.total_searches);
        let expansion = self.get_search_lemmas(norm.as_str());
        let search_lemmas = expansion.0;
        let found_inflections = expansion.1;
        let ghost dbv = self.db_view();
        let ghost idxv = self.idx_view();
        let ghost cands = candidate_lemmas(idxv, norm@);
        let ghost mid = *self;

        let mut all_entries: Vec<DictionaryEntry> = Vec::new();
        let mut searched_terms: Vec<String> = Vec::new();
        let n: usize = search_lemmas.len();
        let mut i: usize = 0;
        proof {
            lemma_views_of(search_lemmas@);
            assert(cands.take(0) =~= Seq::<Seq<char>>::empty());
        }
        while i < n
            invariant
                i <= n,
                n == search_lemmas@.len(),
                *self == mid,
                self.wf(),
                dbv == self.db_view(),
                views_of(search_lemmas@) == cands,
                all_entries@ == gathered_entries(dbv, cands.take(i as int)),
                views_of(searched_terms@) == searched_of(dbv, cands.take(i as int)),
            decreases n - i,
        {
            let lemma_str = &search_lemmas[i];
            let mut entries = self.database.search_by_lemma(lemma_str.as_str());
            proof {
                lemma_views_of(search_lemmas@);
                assert(cands[i as int] == search_lemmas@[i as int]@);
                assert(cands.take(i + 1).drop_last() =~= cands.take(i as int));
                assert(cands.take(i + 1).last() == cands[i as int]);
            }
            if entries.len() > 0 {
                let ghost st0 = searched_terms@;
                searched_terms.push(lemma_str.clone());
                all_entries.append(&mut entries);
                proof {
                    lemma_views_of_push(st0, searched_terms@.last());
                    assert(searched_terms@.drop_last() =~= st0);
                }
            } else {
                proof {
                    assert(entries@ =~= Seq::<DictionaryEntry>::empty());
                    assert(gathered_entries(dbv, cands.take(i + 1)) =~= all_entries@);
                }
            }
            i += 1;
        }
        proof {
            assert(cands.take(n as int) =~= cands);
            if !found_inflections {
                assert(cands =~= seq![norm@]);
                assert(cands.drop_last() =~= Seq::<Seq<char>>::empty());
                assert(gathered_entries(dbv, Seq::<Seq<char>>::empty())
                    == Seq::<DictionaryEntry>::empty());
                assert(cands.last() == norm@);
                assert(Seq::<DictionaryEntry>::empty().add(entries_for(dbv, norm@))
                    =~= entries_for(dbv, norm@));
                assert(gathered_entries(dbv, cands) =~= entries_for(dbv, norm@));
            }
        }

        // Fallback: no inflection mapping and nothing found so far.
        if all_entries.is_empty() && !found_inflections {
            let mut entries = self.database.search_by_lemma(norm.as_str());
            if entries.len() > 0 {
                searched_terms.push(norm.clone());
                all_entries.append(&mut entries);
                proof {
                    assert(false);
                }
            }
            self.stats.direct_lookups = bump(self.stats.direct_lookups);
        }

        // Merge and deduplicate by identifier.
        proof {
            lemma_gathered_membership(dbv, cands);
            mid.lemma_wf_store();
            assert forall|a: int, b: int|
                0 <= a < all_entries@.len() && 0 <= b < all_entries@.len() && (
                #[trigger] all_entries@[a]).id == (#[trigger] all_entries@[b]).id implies
                all_entries@[a] == all_entries@[b] by {
                assert(all_entries@.contains(all_entries@[a]));
                assert(all_entries@.contains(all_entries@[b]));
                let x = choose|x: int| 0 <= x < dbv.len() && dbv[x] == all_entries@[a];
                let y = choose|y: int| 0 <= y < dbv.len() && dbv[y] == all_entries@[b];
                assert(dbv[x].id == dbv[y].id);
            }
        }
        let final_entries = sort_dedup_by_id(all_entries);

        let search_time_ms = millis_since(&search_start);
        let query_used = if searched_terms.is_empty() {
            proof {
                lemma_views_of(searched_terms@);
            }
            norm.clone()
        } else {
            proof {
                lemma_views_of(searched_terms@);
            }
            join_comma(&searched_terms)
        };
        let total_results = final_entries.len();
        Ok(SearchResult {
            entries: final_entries,
            search_time_ms,
            total_results,
            query_used,
            found_inflections,
        })
    }

    /// Autocomplete: the distinct lemmas whose lowercase begins with the
    /// normalized prefix, in store order, cut off at `limit`.
    pub fn get_suggestions(&self, prefix: &str, limit: usize) -> (r: Result<Vec<String>, String>)
        requires
            self.wf(),
        ensures
            r is Ok,
            r matches Ok(v) ==> views_of(v@) == clipped(
                prefix_lemmas(self.db_view(), normalized(prefix@)),
                limit as int,
            ),
            r matches Ok(v) ==> v@.len() <= limit,
            r matches Ok(v) ==> views_of(v@).no_duplicates(),
            r matches Ok(v) ==> forall|k: int|
                0 <= k < v@.len() ==> prefix_matches(normalized(prefix@), #[trigger] v@[k]@),
    {
        let norm = normalize_term(prefix);
        let out = self.database.search_by_prefix(norm.as_str(), limit);
        proof {
            lemma_prefix_lemmas_matches(self.db_view(), norm@);
            lemma_views_of(out@);
            let full = prefix_lemmas(self.db_view(), norm@);
            assert forall|k: int| 0 <= k < out@.len() implies prefix_matches(
                norm@,
                #[trigger] out@[k]@,
            ) by {
                assert(views_of(out@)[k] == out@[k]@);
                if (limit as int) < full.len() {
                    assert(views_of(out@)[k] == full.take(limit as int)[k]);
                    assert(full.take(limit as int)[k] == full[k]);
                } else {
                    assert(views_of(out@)[k] == full[k]);
                }
            }
        }
        Ok(out)
    }

    /// The (lemma, tag) pairs recorded for the normalized word; empty when
    /// the word has no mapping.  Never fails.
    pub fn get_inflections(&self, word: &str) -> (r: Vec<(String, String)>)
        requires
            self.wf(),
        ensures
            pair_views(r@) == prior_pairs(self.idx_view(), normalized(word@)),
    {
        let norm = normalize_term(word);
        self.inflection_map.pairs_of(norm.as_str())
    }

    /// A snapshot of the usage counters composed with the store's totals.
    pub fn get_stats(&self) -> (r: SearchEngineStats)
        requires
            self.wf(),
        ensures
            r.total_searches == self.total_searches(),
            r.cache_hits == self.cache_hits(),
            r.inflection_lookups == self.inflection_lookups(),
            r.direct_lookups == self.direct_lookups(),
            r.total_dictionary_entries == self.db_view().len(),
            r.unique_lemmas == distinct_lemmas(self.db_view()).len(),
    {
        let db_stats = self.database.get_stats();
        SearchEngineStats {
            total_searches: self.stats.total_searches,
            cache_hits: self.stats.cache_hits,
            inflection_lookups: self.stats.inflection_lookups,
            direct_lookups: self.stats.direct_lookups,
            total_dictionary_entries: db_stats.total_entries,
            unique_lemmas: db_stats.unique_lemmas,
        }
    }

    /// Shutdown: clears the inflection index.  The store is in memory, so
    /// flushing the backing file is the host's part of the sequence.
    pub fn cleanup_and_shutdown(&mut self) -> (r: Result<(), String>)
        requires
            old(self).wf(),
        ensures
            final(self).wf(),
            r is Ok,
            final(self).idx_view() == Map::<Seq<char>, Seq<(Seq<char>, Seq<char>)>>::empty(),
            final(self).db_view() == old(self).db_view(),
            final(self).total_searches() == old(self).total_searches(),
            final(self).cache_hits() == old(self).cache_hits(),
            final(self).inflection_lookups() == old(self).inflection_lookups(),
            final(self).direct_lookups() == old(self).direct_lookups(),
    {
        self.inflection_map.clear();
        Ok(())
    }
}

} // verus!
