//! The lexical store: an in-memory, read-only collection of dictionary
//! entries, queried by exact lemma and by prefix.
//!
//! The host opens the backing file, reads every record into
//! [`DictionaryEntry`] values and hands them to [`Database::new`]; from then
//! on every query is answered from memory.  Entries are kept in the store's
//! canonical order: higher frequency rank first, entries without a rank after
//! all ranked ones, ties broken by ascending identifier.  Exact-lemma and
//! prefix queries both return their results in that order.

use vstd::prelude::*;

use crate::text::lemma_views_of;
use crate::text::lemma_views_of_push;
use crate::text::lower_of;
use crate::text::lowercased;
use crate::text::str_starts_with;
use crate::text::string_eq_str;
use crate::text::views_of;

verus! {

/// One dictionary record.
///
/// The canonical entry shape is flat: a unique numeric identifier, the
/// normalized lemma (headword), descriptive text fields, and an optional
/// numeric frequency rank that is used only to order query results.
#[derive(Debug, Clone, PartialEq)]
pub struct DictionaryEntry {
    pub id: i64,
    pub lemma: String,
    pub pos: String,
    pub meanings: String,
    pub definitions: String,
    pub examples: String,
    pub frequency_rank: Option<i64>,
}

/// Totals reported by the store: how many entries it holds and how many
/// distinct lemmas occur among them.
#[derive(Debug, Clone, PartialEq)]
pub struct DatabaseStats {
    pub total_entries: i64,
    pub unique_lemmas: i64,
}

/// The store's ordering on entries: higher frequency rank first, unranked
/// entries after all ranked ones, ties broken by ascending identifier.
pub open spec fn entry_le(a: DictionaryEntry, b: DictionaryEntry) -> bool {
    match (a.frequency_rank, b.frequency_rank) {
        (Some(x), Some(y)) => x > y || (x == y && a.id <= b.id),
        (Some(_), None) => true,
        (None, Some(_)) => false,
        (None, None) => a.id <= b.id,
    }
}

/// The sequence is ordered by [`entry_le`].
pub open spec fn sorted_by_rank(s: Seq<DictionaryEntry>) -> bool {
    forall|i: int, j: int|
        0 <= i < j < s.len() ==> #[trigger] entry_le(s[i], s[j])
}

/// No two entries of the sequence share an identifier.
pub open spec fn distinct_ids(s: Seq<DictionaryEntry>) -> bool {
    forall|i: int, j: int|
        0 <= i < s.len() && 0 <= j < s.len() && i != j ==> (#[trigger] s[i]).id != (#[trigger] s[j]).id
}

/// The subsequence of `s` whose entries carry exactly the lemma `key`,
/// in the order of `s`.
pub open spec fn entries_for(s: Seq<DictionaryEntry>, key: Seq<char>) -> Seq<DictionaryEntry>
    decreases s.len(),
{
    if s.len() == 0 {
        Seq::empty()
    } else {
        let rest = entries_for(s.drop_last(), key);
        if s.last().lemma@ == key {
            rest.push(s.last())
        } else {
            rest
        }
    }
}

/// An element is in `s.push(e)` exactly when it is in `s` or is `e`.
pub proof fn lemma_push_contains<A>(s: Seq<A>, e: A, x: A)
    ensures
        s.push(e).contains(x) <==> s.contains(x) || x == e,
{
    if s.push(e).contains(x) {
        let i = choose|i: int| 0 <= i < s.push(e).len() && s.push(e)[i] == x;
        if i < s.len() {
            assert(s[i] == x);
        }
    }
    if s.contains(x) {
        let i = choose|i: int| 0 <= i < s.len() && s[i] == x;
        assert(s.push(e)[i] == x);
    }
    if x == e {
        assert(s.push(e)[s.len() as int] == x);
    }
}

/// Appending an entry extends the lemma-selection accordingly.
proof fn lemma_entries_for_push(s: Seq<DictionaryEntry>, key: Seq<char>, e: DictionaryEntry)
    ensures
        entries_for(s.push(e), key) == if e.lemma@ == key {
            entries_for(s, key).push(e)
        } else {
            entries_for(s, key)
        },
{
    assert(s.push(e).drop_last() =~= s);
    assert(s.push(e).last() == e);
}

/// Membership in the lemma-selection: exactly the entries of `s` whose
/// lemma is `key`.
pub proof fn lemma_entries_for_membership(s: Seq<DictionaryEntry>, key: Seq<char>)
    ensures
        forall|x: DictionaryEntry|
            #[trigger] entries_for(s, key).contains(x) <==> s.contains(x) && x.lemma@ == key,
    decreases s.len(),
{
    if s.len() == 0 {
    } else {
        let prefix = s.drop_last();
        lemma_entries_for_membership(prefix, key);
        assert forall|x: DictionaryEntry|
            #[trigger] entries_for(s, key).contains(x) <==> s.contains(x) && x.lemma@ == key by {
            assert(prefix.push(s.last()) =~= s);
            lemma_entries_for_push(prefix, key, s.last());
            if s.last().lemma@ == key {
                lemma_push_contains(entries_for(prefix, key), s.last(), x);
            }
            lemma_push_contains(prefix, s.last(), x);
        }
    }
}

/// Selecting a lemma out of an ordered store keeps the order.
pub proof fn lemma_entries_for_sorted(s: Seq<DictionaryEntry>, key: Seq<char>)
    requires
        sorted_by_rank(s),
    ensures
        sorted_by_rank(entries_for(s, key)),
    decreases s.len(),
{
    if s.len() > 0 {
        let prefix = s.drop_last();
        assert forall|i: int, j: int|
            0 <= i < j < prefix.len() implies #[trigger] entry_le(prefix[i], prefix[j]) by {
            assert(prefix[i] == s[i]);
            assert(prefix[j] == s[j]);
        }
        lemma_entries_for_sorted(prefix, key);
        if s.last().lemma@ == key {
            let rest = entries_for(prefix, key);
            lemma_entries_for_membership(prefix, key);
            assert forall|i: int, j: int|
                0 <= i < j < rest.push(s.last()).len() implies #[trigger] entry_le(
                rest.push(s.last())[i],
                rest.push(s.last())[j],
            ) by {
                if j < rest.len() {
                    assert(rest.push(s.last())[i] == rest[i]);
                    assert(rest.push(s.last())[j] == rest[j]);
                } else {
                    assert(rest.push(s.last())[i] == rest[i]);
                    assert(rest.contains(rest[i]));
                    let k = choose|k: int| 0 <= k < prefix.len() && prefix[k] == rest[i];
                    assert(s[k] == rest[i]);
                    assert(entry_le(s[k], s[s.len() - 1]));
                }
            }
        }
    }
}

/// Returns a copy of the entry, equal to the original.
pub fn clone_entry(e: &DictionaryEntry) -> (r: DictionaryEntry)
    ensures
        r == *e,
{
    DictionaryEntry {
        id: e.id,
        lemma: e.lemma.clone(),
        pos: e.pos.clone(),
        meanings: e.meanings.clone(),
        definitions: e.definitions.clone(),
        examples: e.examples.clone(),
        frequency_rank: e.frequency_rank,
    }
}

/// Decides [`entry_le`] on two entries.
fn entry_le_exec(a: &DictionaryEntry, b: &DictionaryEntry) -> (r: bool)
    ensures
        r == entry_le(*a, *b),
{
    match (a.frequency_rank, b.frequency_rank) {
        (Some(x), Some(y)) => x > y || (x == y && a.id <= b.id),
        (Some(_), None) => true,
        (None, Some(_)) => false,
        (None, None) => a.id <= b.id,
    }
}

proof fn lemma_entry_le_total(a: DictionaryEntry, b: DictionaryEntry)
    ensures
        entry_le(a, b) || entry_le(b, a),
{
}

proof fn lemma_entry_le_trans(a: DictionaryEntry, b: DictionaryEntry, c: DictionaryEntry)
    requires
        entry_le(a, b),
        entry_le(b, c),
    ensures
        entry_le(a, c),
{
}

/// The in-memory lexical store.
///
/// Holds its entries in the canonical order established by
/// [`Database::new`]; see [`entry_le`].
pub struct Database {
    entries: Vec<DictionaryEntry>,
}

impl View for Database {
    type V = Seq<DictionaryEntry>;

    closed spec fn view(&self) -> Seq<DictionaryEntry> {
        self.entries@
    }
}

impl Database {
    /// Well-formedness: entries are in canonical order, identifiers are
    /// unique, and the count fits the statistics fields.
    pub open spec fn wf(&self) -> bool {
        &&& sorted_by_rank(self@)
        &&& distinct_ids(self@)
        &&& self@.len() <= i64::MAX
    }

    /// Builds the store from the records read out of the backing file,
    /// putting them into canonical order.
    pub fn new(entries: Vec<DictionaryEntry>) -> (db: Database)
        requires
            distinct_ids(entries@),
            entries@.len() <= i64::MAX,
        ensures
            db.wf(),
            db@.len() == entries@.len(),
            forall|x: DictionaryEntry| db@.contains(x) <==> entries@.contains(x),
    {
        let mut ordered: Vec<DictionaryEntry> = Vec::new();
        let n: usize = entries.len();
        let mut i: usize = 0;
        while i < n
            invariant
                i <= n,
                n == entries@.len(),
                distinct_ids(entries@),
                sorted_by_rank(ordered@),
                distinct_ids(ordered@),
                ordered@.len() == i,
                forall|x: DictionaryEntry|
                    #[trigger] ordered@.contains(x) <==> entries@.take(i as int).contains(x),
            decreases n - i,
        {
            let e = clone_entry(&entries[i]);
            proof {
                assert forall|j: int| 0 <= j < ordered@.len() implies (#[trigger] ordered@[j]).id != e.id by {
                    assert(ordered@.contains(ordered@[j]));
                    let k = choose|k: int|
                        0 <= k < i && entries@.take(i as int)[k] == ordered@[j];
                    assert(entries@[k] == ordered@[j]);
                }
            }
            insert_sorted(&mut ordered, e);
            proof {
                assert(entries@.take(i + 1).drop_last() =~= entries@.take(i as int));
                assert(entries@.take(i + 1) =~= entries@.take(i as int).push(entries@[i as int]));
                assert forall|x: DictionaryEntry|
                    #[trigger] ordered@.contains(x) <==> entries@.take(i + 1).contains(x) by {
                    lemma_push_contains(entries@.take(i as int), entries@[i as int], x);
                }
            }
            i += 1;
        }
        proof {
            assert(entries@.take(n as int) =~= entries@);
        }
        Database { entries: ordered }
    }

    /// Exact-lemma lookup: every entry whose lemma equals `term`
    /// (case-sensitively), in the store's canonical order.
    pub fn search_by_lemma(&self, term: &str) -> (r: Vec<DictionaryEntry>)
        ensures
            r@ == entries_for(self@, term@),
            self.wf() ==> sorted_by_rank(r@),
    {
        proof {
            if self.wf() {
                lemma_entries_for_sorted(self@, term@);
            }
        }
        let mut out: Vec<DictionaryEntry> = Vec::new();
        let n: usize = self.entries.len();
        let mut i: usize = 0;
        while i < n
            invariant
                i <= n,
                n == self@.len(),
                out@ == entries_for(self@.take(i as int), term@),
            decreases n - i,
        {
            proof {
                assert(self@.take(i + 1).drop_last() =~= self@.take(i as int));
                assert(self@.take(i + 1).last() == self@[i as int]);
            }
            if string_eq_str(&self.entries[i].lemma, term) {
                out.push(clone_entry(&self.entries[i]));
            }
            i += 1;
        }
        proof {
            assert(self@.take(n as int) =~= self@);
        }
        out
    }
}

/// Whether a lemma counts as a case-insensitive match for the prefix `p`:
/// `p` begins the lowercase of the lemma.
pub open spec fn prefix_matches(p: Seq<char>, l: Seq<char>) -> bool {
    p.is_prefix_of(lower_of(l))
}

/// The distinct lemmas of `s` whose lowercase begins with `p`, ordered by
/// first occurrence in `s`.
pub open spec fn prefix_lemmas(s: Seq<DictionaryEntry>, p: Seq<char>) -> Seq<Seq<char>>
    decreases s.len(),
{
    if s.len() == 0 {
        Seq::empty()
    } else {
        let rest = prefix_lemmas(s.drop_last(), p);
        let l = s.last().lemma@;
        if prefix_matches(p, l) && !rest.contains(l) {
            rest.push(l)
        } else {
            rest
        }
    }
}

proof fn lemma_prefix_lemmas_push(s: Seq<DictionaryEntry>, p: Seq<char>, e: DictionaryEntry)
    ensures
        prefix_lemmas(s.push(e), p) == if prefix_matches(p, e.lemma@) && !prefix_lemmas(s, p).contains(e.lemma@) {
            prefix_lemmas(s, p).push(e.lemma@)
        } else {
            prefix_lemmas(s, p)
        },
{
    assert(s.push(e).drop_last() =~= s);
    assert(s.push(e).last() == e);
}

/// Restricting the store to a prefix of its entries yields a prefix of the
/// suggestion list.
proof fn lemma_prefix_lemmas_take(s: Seq<DictionaryEntry>, p: Seq<char>, i: int)
    requires
        0 <= i <= s.len(),
    ensures
        prefix_lemmas(s.take(i), p).is_prefix_of(prefix_lemmas(s, p)),
    decreases s.len() - i,
{
    if i == s.len() {
        assert(s.take(i) =~= s);
        assert(prefix_lemmas(s, p) =~= prefix_lemmas(s, p).subrange(0, prefix_lemmas(s, p).len() as int));
    } else {
        assert(s.take(i + 1) =~= s.take(i).push(s[i]));
        lemma_prefix_lemmas_push(s.take(i), p, s[i]);
        lemma_prefix_lemmas_take(s, p, i + 1);
        let a = prefix_lemmas(s.take(i), p);
        let b = prefix_lemmas(s.take(i + 1), p);
        let c = prefix_lemmas(s, p);
        assert(a.is_prefix_of(b));
        assert(a =~= c.subrange(0, a.len() as int));
    }
}

/// The suggestion list never repeats a lemma.
pub proof fn lemma_prefix_lemmas_distinct(s: Seq<DictionaryEntry>, p: Seq<char>)
    ensures
        prefix_lemmas(s, p).no_duplicates(),
    decreases s.len(),
{
    if s.len() > 0 {
        lemma_prefix_lemmas_distinct(s.drop_last(), p);
        let rest = prefix_lemmas(s.drop_last(), p);
        let l = s.last().lemma@;
        if prefix_matches(p, l) && !rest.contains(l) {
            assert forall|i: int, j: int|
                0 <= i < rest.push(l).len() && 0 <= j < rest.push(l).len() && i != j implies
                rest.push(l)[i] != rest.push(l)[j] by {
                if i < rest.len() && j < rest.len() {
                    assert(rest.push(l)[i] == rest[i]);
                    assert(rest.push(l)[j] == rest[j]);
                } else if i < rest.len() {
                    assert(rest.contains(rest[i]));
                } else if j < rest.len() {
                    assert(rest.contains(rest[j]));
                }
            }
        }
    }
}

/// Every suggested lemma matches the prefix.
pub proof fn lemma_prefix_lemmas_matches(s: Seq<DictionaryEntry>, p: Seq<char>)
    ensures
        forall|i: int|
            0 <= i < prefix_lemmas(s, p).len() ==> prefix_matches(
                p,
                #[trigger] prefix_lemmas(s, p)[i],
            ),
    decreases s.len(),
{
    if s.len() > 0 {
        lemma_prefix_lemmas_matches(s.drop_last(), p);
        let rest = prefix_lemmas(s.drop_last(), p);
        let l = s.last().lemma@;
        assert forall|i: int| 0 <= i < prefix_lemmas(s, p).len() implies prefix_matches(
            p,
            #[trigger] prefix_lemmas(s, p)[i],
        ) by {
            if prefix_matches(p, l) && !rest.contains(l) {
                if i < rest.len() {
                    assert(prefix_lemmas(s, p)[i] == rest[i]);
                } else {
                    assert(prefix_lemmas(s, p)[i] == l);
                }
            } else {
                assert(prefix_lemmas(s, p)[i] == rest[i]);
            }
        }
    }
}

/// The distinct lemmas of `s`, ordered by first occurrence.
pub open spec fn distinct_lemmas(s: Seq<DictionaryEntry>) -> Seq<Seq<char>>
    decreases s.len(),
{
    if s.len() == 0 {
        Seq::empty()
    } else {
        let rest = distinct_lemmas(s.drop_last());
        let l = s.last().lemma@;
        if !rest.contains(l) {
            rest.push(l)
        } else {
            rest
        }
    }
}

proof fn lemma_distinct_lemmas_push(s: Seq<DictionaryEntry>, e: DictionaryEntry)
    ensures
        distinct_lemmas(s.push(e)) == if !distinct_lemmas(s).contains(e.lemma@) {
            distinct_lemmas(s).push(e.lemma@)
        } else {
            distinct_lemmas(s)
        },
{
    assert(s.push(e).drop_last() =~= s);
    assert(s.push(e).last() == e);
}

proof fn lemma_distinct_lemmas_len(s: Seq<DictionaryEntry>)
    ensures
        distinct_lemmas(s).len() <= s.len(),
    decreases s.len(),
{
    if s.len() > 0 {
        lemma_distinct_lemmas_len(s.drop_last());
    }
}

/// A list of suggestions cut off at `limit` entries.
pub open spec fn clipped(s: Seq<Seq<char>>, limit: int) -> Seq<Seq<char>> {
    if limit < s.len() {
        s.take(limit)
    } else {
        s
    }
}

/// Decides whether one of the strings in `v` has the contents of `s`.
fn vec_contains_string(v: &Vec<String>, s: &String) -> (r: bool)
    ensures
        r == views_of(v@).contains(s@),
{
    let n: usize = v.len();
    let mut i: usize = 0;
    while i < n
        invariant
            i <= n,
            n == v@.len(),
            forall|j: int| 0 <= j < i ==> v@[j]@ != s@,
        decreases n - i,
    {
        if string_eq_str(&v[i], s.as_str()) {
            proof {
                lemma_views_of(v@);
                assert(views_of(v@)[i as int] == s@);
            }
            return true;
        }
        i += 1;
    }
    proof {
        lemma_views_of(v@);
        if views_of(v@).contains(s@) {
            let j = choose|j: int| 0 <= j < views_of(v@).len() && views_of(v@)[j] == s@;
            assert(v@[j]@ == s@);
        }
    }
    false
}

impl Database {
    /// Prefix lookup: the distinct lemmas whose lowercase begins with
    /// `prefix`, in the store's canonical order, cut off at `limit`
    /// suggestions.  A limit of zero yields no suggestions.
    pub fn search_by_prefix(&self, prefix: &str, limit: usize) -> (r: Vec<String>)
        ensures
            views_of(r@) == clipped(prefix_lemmas(self@, prefix@), limit as int),
            r@.len() <= limit,
            views_of(r@).no_duplicates(),
    {
        let mut out: Vec<String> = Vec::new();
        let n: usize = self.entries.len();
        let mut i: usize = 0;
        while i < n && out.len() < limit
            invariant
                i <= n,
                n == self@.len(),
                out@.len() <= limit,
                views_of(out@) == prefix_lemmas(self@.take(i as int), prefix@),
                views_of(out@).len() == out@.len(),
            decreases n - i,
        {
            let e = &self.entries[i];
            let lowered = lowercased(e.lemma.as_str());
            proof {
                assert(self@.take(i + 1) =~= self@.take(i as int).push(self@[i as int]));
                lemma_prefix_lemmas_push(self@.take(i as int), prefix@, self@[i as int]);
            }
            if str_starts_with(lowered.as_str(), prefix) && !vec_contains_string(&out, &e.lemma) {
                let ghost out0 = out@;
                out.push(e.lemma.clone());
                proof {
                    lemma_views_of_push(out0, out@.last());
                    assert(out@.drop_last() =~= out0);
                    assert(views_of(out@) == views_of(out0).push(e.lemma@));
                }
            }
            i += 1;
        }
        proof {
            let full = prefix_lemmas(self@, prefix@);
            if i == n {
                assert(self@.take(n as int) =~= self@);
                assert(views_of(out@) == full);
                assert(clipped(full, limit as int) == full);
            } else {
                assert(out@.len() == limit);
                lemma_prefix_lemmas_take(self@, prefix@, i as int);
                let part = prefix_lemmas(self@.take(i as int), prefix@);
                assert(part.is_prefix_of(full));
                assert(part =~= full.take(limit as int));
            }
            lemma_prefix_lemmas_distinct(self@, prefix@);
            assert forall|a: int, b: int|
                0 <= a < views_of(out@).len() && 0 <= b < views_of(out@).len() && a != b implies
                views_of(out@)[a] != views_of(out@)[b] by {
                assert(views_of(out@)[a] == full[a]);
                assert(views_of(out@)[b] == full[b]);
            }
        }
        out
    }

    /// The store's totals: entry count and distinct lemma count.
    pub fn get_stats(&self) -> (r: DatabaseStats)
        requires
            self@.len() <= i64::MAX,
        ensures
            r.total_entries == self@.len(),
            r.unique_lemmas == distinct_lemmas(self@).len(),
    {
        let mut seen: Vec<String> = Vec::new();
        let n: usize = self.entries.len();
        let mut i: usize = 0;
        while i < n
            invariant
                i <= n,
                n == self@.len(),
                views_of(seen@) == distinct_lemmas(self@.take(i as int)),
                views_of(seen@).len() == seen@.len(),
            decreases n - i,
        {
            let e = &self.entries[i];
            proof {
                assert(self@.take(i + 1) =~= self@.take(i as int).push(self@[i as int]));
                lemma_distinct_lemmas_push(self@.take(i as int), self@[i as int]);
            }
            if !vec_contains_string(&seen, &e.lemma) {
                let ghost seen0 = seen@;
                seen.push(e.lemma.clone());
                proof {
                    lemma_views_of_push(seen0, seen@.last());
                    assert(seen@.drop_last() =~= seen0);
                    assert(views_of(seen@) == views_of(seen0).push(e.lemma@));
                }
            }
            i += 1;
        }
        proof {
            assert(self@.take(n as int) =~= self@);
            lemma_distinct_lemmas_len(self@);
        }
        DatabaseStats { total_entries: self.entries.len() as i64, unique_lemmas: seen.len() as i64 }
    }
}

/// Inserts an entry into an ordered vector, keeping the order.
fn insert_sorted(v: &mut Vec<DictionaryEntry>, e: DictionaryEntry)
    requires
        sorted_by_rank(old(v)@),
        distinct_ids(old(v)@),
        forall|j: int| 0 <= j < old(v)@.len() ==> (#[trigger] old(v)@[j]).id != e.id,
    ensures
        sorted_by_rank(final(v)@),
        distinct_ids(final(v)@),
        final(v)@.len() == old(v)@.len() + 1,
        forall|x: DictionaryEntry| #[trigger] final(v)@.contains(x) <==> old(v)@.contains(x) || x == e,
{
    let mut k: usize = 0;
    while k < v.len() && entry_le_exec(&v[k], &e)
        invariant
            k <= v@.len(),
            v@ == old(v)@,
            forall|j: int| 0 <= j < k ==> entry_le(#[trigger] v@[j], e),
        decreases v@.len() - k,
    {
        k += 1;
    }
    let ghost s0 = v@;
    let ghost pos = k as int;
    v.insert(k, e);
    proof {
        s0.insert_ensures(pos, e);
        assert(v@ == s0.insert(pos, e));
        if pos < s0.len() {
            lemma_entry_le_total(s0[pos], e);
        }
        assert forall|i: int, j: int| 0 <= i < j < v@.len() implies #[trigger] entry_le(v@[i], v@[j]) by {
            let a = if i < pos { s0[i] } else if i == pos { e } else { s0[i - 1] };
            let b = if j < pos { s0[j] } else if j == pos { e } else { s0[j - 1] };
            assert(v@[i] == a);
            assert(v@[j] == b);
            if i < pos && j == pos {
                // a comes from the scanned prefix, so a <= e
            } else if i == pos && j > pos {
                // e <= s0[pos] <= s0[j - 1]
                if j - 1 > pos {
                    lemma_entry_le_trans(e, s0[pos], s0[j - 1]);
                }
            } else if i < pos && j > pos {
                assert(entry_le(s0[i], s0[j - 1]));
            }
        }
        assert forall|x: DictionaryEntry| #[trigger] v@.contains(x) implies s0.contains(x) || x == e by {
            let i = choose|i: int| 0 <= i < v@.len() && v@[i] == x;
            if i < pos {
                assert(s0[i] == x);
            } else if i > pos {
                assert(s0[i - 1] == x);
            }
        }
        assert forall|x: DictionaryEntry| s0.contains(x) || x == e implies #[trigger] v@.contains(x) by {
            if x == e {
                assert(v@[pos] == x);
            } else {
                let i = choose|i: int| 0 <= i < s0.len() && s0[i] == x;
                if i < pos {
                    assert(v@[i] == x);
                } else {
                    assert(v@[i + 1] == x);
                }
            }
        }
        assert forall|i: int, j: int|
            0 <= i < v@.len() && 0 <= j < v@.len() && i != j implies (#[trigger] v@[i]).id != (#[trigger] v@[j]).id by {
            let a = if i < pos { s0[i] } else if i == pos { e } else { s0[i - 1] };
            let b = if j < pos { s0[j] } else if j == pos { e } else { s0[j - 1] };
            assert(v@[i] == a);
            assert(v@[j] == b);
        }
    }
}

} // verus!
