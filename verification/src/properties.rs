//! Laws of the resolution engine, stated over the same spec functions that
//! the engine's contracts use and proved once for every store, index and
//! term.

use vstd::prelude::*;

use crate::database::distinct_ids;
use crate::database::entries_for;
use crate::database::lemma_entries_for_membership;
use crate::database::DictionaryEntry;
use crate::inflection::firsts;
use crate::search_engine::candidate_lemmas;
use crate::search_engine::lemma_strictly_sorted_unique;
use crate::search_engine::resolution_ok;
use crate::search_engine::strictly_sorted_by_id;
use crate::text::normalized;

verus! {

/// A resolved entry list never carries two records with the same
/// identifier.
pub proof fn lemma_resolution_distinct_ids(entries: Seq<DictionaryEntry>)
    requires
        strictly_sorted_by_id(entries),
    ensures
        distinct_ids(entries),
{
    assert forall|i: int, j: int|
        0 <= i < entries.len() && 0 <= j < entries.len() && i != j implies (
    #[trigger] entries[i]).id != (#[trigger] entries[j]).id by {
        if i < j {
            assert(entries[i].id < entries[j].id);
        } else {
            assert(entries[j].id < entries[i].id);
        }
    }
}

/// For a term whose normalized form has an inflection mapping to the lemmas
/// L1..Ln, a resolved entry list holds exactly the union of the store's
/// entries for each Li, and repeats no identifier.
pub proof fn lemma_resolution_is_union(
    db: Seq<DictionaryEntry>,
    idx: Map<Seq<char>, Seq<(Seq<char>, Seq<char>)>>,
    term: Seq<char>,
    entries: Seq<DictionaryEntry>,
)
    requires
        resolution_ok(db, idx, term, entries),
        idx.contains_key(normalized(term)),
    ensures
        forall|e: DictionaryEntry|
            #[trigger] entries.contains(e) <==> exists|i: int|
                0 <= i < firsts(idx[normalized(term)]).len() && (#[trigger] entries_for(
                    db,
                    firsts(idx[normalized(term)])[i],
                )).contains(e),
        distinct_ids(entries),
{
    let lemmas = firsts(idx[normalized(term)]);
    assert forall|e: DictionaryEntry| #[trigger] entries.contains(e) implies exists|i: int|
        0 <= i < lemmas.len() && (#[trigger] entries_for(db, lemmas[i])).contains(e) by {
        assert(lemmas.contains(e.lemma@));
        let i = choose|i: int| 0 <= i < lemmas.len() && lemmas[i] == e.lemma@;
        lemma_entries_for_membership(db, lemmas[i]);
        assert((#[trigger] entries_for(db, lemmas[i])).contains(e));
    }
    assert forall|e: DictionaryEntry|
        (exists|i: int| 0 <= i < lemmas.len() && (#[trigger] entries_for(db, lemmas[i])).contains(
            e,
        )) implies #[trigger] entries.contains(e) by {
        let i = choose|i: int|
            0 <= i < lemmas.len() && (#[trigger] entries_for(db, lemmas[i])).contains(e);
        lemma_entries_for_membership(db, lemmas[i]);
        assert(lemmas[i] == e.lemma@);
        assert(lemmas.contains(e.lemma@));
    }
    lemma_resolution_distinct_ids(entries);
}

/// For a term with no inflection mapping and no matching lemma, resolution
/// yields no entries at all.
pub proof fn lemma_resolution_unknown_term_empty(
    db: Seq<DictionaryEntry>,
    idx: Map<Seq<char>, Seq<(Seq<char>, Seq<char>)>>,
    term: Seq<char>,
    entries: Seq<DictionaryEntry>,
)
    requires
        resolution_ok(db, idx, term, entries),
        !idx.contains_key(normalized(term)),
        entries_for(db, normalized(term)).len() == 0,
    ensures
        entries.len() == 0,
{
    if entries.len() > 0 {
        let e = entries[0];
        assert(entries.contains(e));
        let cands = candidate_lemmas(idx, normalized(term));
        assert(cands == seq![normalized(term)]);
        let i = choose|i: int| 0 <= i < cands.len() && cands[i] == e.lemma@;
        assert(e.lemma@ == normalized(term));
        lemma_entries_for_membership(db, normalized(term));
        assert(entries_for(db, normalized(term)).contains(e));
    }
}

/// For a term whose inflection mapping exists but whose every candidate
/// lemma yields no store entries, resolution yields no entries; by the
/// engine's contract the direct fallback is not taken either, since a
/// fallback needs the mapping to be absent.
pub proof fn lemma_resolution_expansion_empty(
    db: Seq<DictionaryEntry>,
    idx: Map<Seq<char>, Seq<(Seq<char>, Seq<char>)>>,
    term: Seq<char>,
    entries: Seq<DictionaryEntry>,
)
    requires
        resolution_ok(db, idx, term, entries),
        idx.contains_key(normalized(term)),
        forall|i: int|
            0 <= i < firsts(idx[normalized(term)]).len() ==> (#[trigger] entries_for(
                db,
                firsts(idx[normalized(term)])[i],
            )).len() == 0,
    ensures
        entries.len() == 0,
{
    let lemmas = firsts(idx[normalized(term)]);
    if entries.len() > 0 {
        let e = entries[0];
        assert(entries.contains(e));
        assert(lemmas.contains(e.lemma@));
        let i = choose|i: int| 0 <= i < lemmas.len() && lemmas[i] == e.lemma@;
        lemma_entries_for_membership(db, lemmas[i]);
        assert(entries_for(db, lemmas[i]).contains(e));
    }
}

/// Resolving the same term twice against an unmodified store and index
/// yields identical entry lists: the same entries in the same order.
pub proof fn lemma_resolution_deterministic(
    db: Seq<DictionaryEntry>,
    idx: Map<Seq<char>, Seq<(Seq<char>, Seq<char>)>>,
    term: Seq<char>,
    first_run: Seq<DictionaryEntry>,
    second_run: Seq<DictionaryEntry>,
)
    requires
        resolution_ok(db, idx, term, first_run),
        resolution_ok(db, idx, term, second_run),
    ensures
        first_run == second_run,
{
    lemma_strictly_sorted_unique(first_run, second_run);
}

} // verus!
