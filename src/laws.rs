use vstd::prelude::*;
use crate::atom::{parents_of, SemanticAtom, StoreError, CONFIDENCE_SCALE};
use crate::index::{
    buckets_of, facet_key, has_slot, keys_of, lemma_keys_cover, lemma_slots_members,
    lemma_timeline_once, timeline_of, Facet,
};
use crate::query::{lemma_ranked_permutes, lemma_ranked_sorted, rank_sorted, ranked};
use crate::text::concept_matches;
use crate::store::{
    concept_hits, lemma_hits_in,
    has_id, insert_refusal, parent_precedes, revision_refusal, slot_for, valid_store, with_confidence, AtomStore,
};

verus! {

/// Full coverage: in a well-formed store every atom is filed in exactly one
/// bucket of each keyed mapping (the bucket of its own key, and there once), and
/// has exactly one entry in the temporal index.
pub proof fn lemma_full_coverage(store: &AtomStore, f: Facet, i: int)
    requires
        store.wf(),
        0 <= i < store.atoms().len(),
    ensures
        store.indexed(),
        exists|b: int|
            0 <= b < buckets_of(store.atoms(), f).len() && #[trigger] buckets_of(store.atoms(), f)[b].0
                == facet_key(store.atoms()[i], f),
        forall|b: int|
            0 <= b < buckets_of(store.atoms(), f).len() ==> (#[trigger] buckets_of(
                store.atoms(),
                f,
            )[b].1.contains(i as usize) <==> buckets_of(store.atoms(), f)[b].0 == facet_key(
                store.atoms()[i],
                f,
            )),
        forall|b: int, j1: int, j2: int|
            0 <= b < buckets_of(store.atoms(), f).len() && 0 <= j1 < j2 < buckets_of(
                store.atoms(),
                f,
            )[b].1.len() ==> buckets_of(store.atoms(), f)[b].1[j1] != buckets_of(
                store.atoms(),
                f,
            )[b].1[j2],
        has_slot(timeline_of(store.atoms()), i),
        forall|t1: int, t2: int|
            0 <= t1 < t2 < timeline_of(store.atoms()).len() ==> timeline_of(store.atoms())[t1].1
                != timeline_of(store.atoms())[t2].1,
{
    store.lemma_wf();
    let atoms = store.atoms();
    let bs = buckets_of(atoms, f);
    let ks = keys_of(atoms, f);
    let k = facet_key(atoms[i], f);
    lemma_keys_cover(atoms, f);
    assert(ks.contains(facet_key(atoms[i], f)));
    let b0 = choose|b: int| 0 <= b < ks.len() && ks[b] == k;
    assert(bs[b0].0 == k);
    assert forall|b: int| 0 <= b < bs.len() implies (#[trigger] bs[b].1.contains(i as usize) <==> bs[b].0 == k) by {
        lemma_slots_members(atoms, f, ks[b]);
    }
    assert forall|b: int, j1: int, j2: int|
        0 <= b < bs.len() && 0 <= j1 < j2 < bs[b].1.len() implies bs[b].1[j1] != bs[b].1[j2] by {
        lemma_slots_members(atoms, f, ks[b]);
    }
    lemma_timeline_once(atoms);
}

/// Consistency under rebuild: the indices are a function of the atom sequence,
/// so a store rebuilt from a sequence and one that inserted the same sequence in
/// the same order hold identical indices and answer every query alike.
pub proof fn lemma_rebuild_matches_inserts(rebuilt: &AtomStore, inserted: &AtomStore)
    requires
        rebuilt.wf(),
        inserted.wf(),
        rebuilt.atoms() == inserted.atoms(),
    ensures
        rebuilt.concept_buckets() == inserted.concept_buckets(),
        rebuilt.agent_buckets() == inserted.agent_buckets(),
        rebuilt.source_buckets() == inserted.source_buckets(),
        rebuilt.timeline() == inserted.timeline(),
{
    rebuilt.lemma_wf();
    inserted.lemma_wf();
}

/// Idempotent rebuild: two rebuilds from the same accepted input hold the same
/// atoms and identical indices.
pub proof fn lemma_rebuild_idempotent(input: Seq<SemanticAtom>, first: &AtomStore, second: &AtomStore)
    requires
        first.wf(),
        second.wf(),
        first.atoms() == input,
        second.atoms() == input,
    ensures
        first.atoms() == second.atoms(),
        first.concept_buckets() == second.concept_buckets(),
        first.agent_buckets() == second.agent_buckets(),
        first.source_buckets() == second.source_buckets(),
        first.timeline() == second.timeline(),
{
    lemma_rebuild_matches_inserts(first, second);
}

/// Acyclicity: an atom that names itself among its parents is refused with
/// `CycleDetected` (insert then leaves the store unchanged, so its id stays
/// absent); and in a valid store every parent of an atom sits in an earlier slot,
/// so no atom is its own ancestor.
pub proof fn lemma_cycle_refused(atoms: Seq<SemanticAtom>, a: SemanticAtom)
    requires
        valid_store(atoms),
        !has_id(atoms, a.id@),
        a.confidence <= CONFIDENCE_SCALE,
        parents_of(a).contains(a.id@),
    ensures
        insert_refusal(atoms, a) == Some(StoreError::CycleDetected),
        forall|i: int, k: int|
            0 <= i < atoms.len() && 0 <= k < parents_of(atoms[i]).len() ==> #[trigger] parent_precedes(
                atoms,
                i,
                k,
            ),
{
}

/// Confidence monotonicity: an accepted revision never lowers a stored
/// confidence, and a lower value is refused with `ConfidenceRegression`.
pub proof fn lemma_confidence_monotone(atoms: Seq<SemanticAtom>, id: Seq<char>, c: u32)
    requires
        valid_store(atoms),
    ensures
        revision_refusal(atoms, id, c) is None ==> forall|i: int|
            0 <= i < atoms.len() ==> #[trigger] atoms.update(
                slot_for(atoms, id),
                with_confidence(atoms[slot_for(atoms, id)], c),
            )[i].confidence >= atoms[i].confidence,
        has_id(atoms, id) && c <= CONFIDENCE_SCALE && c < atoms[slot_for(atoms, id)].confidence
            ==> revision_refusal(atoms, id, c) == Some(StoreError::ConfidenceRegression),
{
}

/// `chain` lists slots of `atoms`, each atom after the first a parent of the one
/// before it.
pub open spec fn is_lineage_chain(atoms: Seq<SemanticAtom>, chain: Seq<int>) -> bool {
    &&& forall|t: int| 0 <= t < chain.len() ==> 0 <= #[trigger] chain[t] < atoms.len()
    &&& forall|t: int|
        0 <= t < chain.len() - 1 ==> parents_of(atoms[#[trigger] chain[t]]).contains(
            atoms[chain[t + 1]].id@,
        )
}

/// Lineage is acyclic: along any chain of parent links in a valid store the
/// slots strictly decrease, so no atom is, directly or transitively, its own
/// ancestor.
pub proof fn lemma_lineage_acyclic(atoms: Seq<SemanticAtom>, chain: Seq<int>)
    requires
        valid_store(atoms),
        is_lineage_chain(atoms, chain),
        chain.len() >= 2,
    ensures
        chain.last() < chain[0],
    decreases chain.len(),
{
    let i = chain[0];
    let p = chain[1];
    let k = choose|k: int| 0 <= k < parents_of(atoms[i]).len() && parents_of(atoms[i])[k] == atoms[p].id@;
    assert(parent_precedes(atoms, i, k));
    let j = choose|j: int| 0 <= j < i && #[trigger] atoms[j].id@ == parents_of(atoms[i])[k];
    if j != p {
        if j < p {
            assert(atoms[j].id@ != atoms[p].id@);
        } else {
            assert(atoms[p].id@ != atoms[j].id@);
        }
    }
    if chain.len() > 2 {
        let rest = chain.drop_first();
        assert forall|t: int| 0 <= t < rest.len() - 1 implies parents_of(atoms[#[trigger] rest[t]]).contains(
            atoms[rest[t + 1]].id@,
        ) by {
            assert(rest[t] == chain[t + 1] && rest[t + 1] == chain[t + 2]);
        }
        assert forall|t: int| 0 <= t < rest.len() implies 0 <= #[trigger] rest[t] < atoms.len() by {
            assert(rest[t] == chain[t + 1]);
        }
        lemma_lineage_acyclic(atoms, rest);
    }
}

/// Search correctness: what `search_by_concept` returns is sorted by descending
/// confidence, then ascending timestamp; it holds only atoms whose concept
/// matches the query, every stored atom that matches, and each result as often as
/// the concept index lists it.
pub proof fn lemma_search_correct(atoms: Seq<SemanticAtom>, query: Seq<char>, case_sensitive: bool)
    requires
        atoms.len() <= usize::MAX,
    ensures
        rank_sorted(ranked(concept_hits(atoms, query, case_sensitive))),
        ranked(concept_hits(atoms, query, case_sensitive)).to_multiset() == concept_hits(
            atoms,
            query,
            case_sensitive,
        ).to_multiset(),
        forall|e: SemanticAtom|
            ranked(concept_hits(atoms, query, case_sensitive)).contains(e) ==> concept_matches(
                e.concept@,
                query,
                case_sensitive,
            ),
        forall|i: int|
            0 <= i < atoms.len() && concept_matches(atoms[i].concept@, query, case_sensitive)
                ==> ranked(concept_hits(atoms, query, case_sensitive)).contains(#[trigger] atoms[i]),
{
    let hits = concept_hits(atoms, query, case_sensitive);
    let r = ranked(hits);
    lemma_ranked_sorted(hits);
    lemma_ranked_permutes(hits);
    lemma_hits_in(atoms, keys_of(atoms, Facet::Concept), query, case_sensitive);
    lemma_keys_cover(atoms, Facet::Concept);
    r.to_multiset_ensures();
    hits.to_multiset_ensures();
    assert forall|e: SemanticAtom| r.contains(e) implies concept_matches(e.concept@, query, case_sensitive) by {
        assert(r.to_multiset().count(e) > 0);
        assert(hits.contains(e));
    }
    assert forall|i: int|
        0 <= i < atoms.len() && concept_matches(atoms[i].concept@, query, case_sensitive) implies r.contains(
        #[trigger] atoms[i],
    ) by {
        assert(facet_key(atoms[i], Facet::Concept) == atoms[i].concept@);
        assert(hits.contains(atoms[i]));
        assert(hits.to_multiset().count(atoms[i]) > 0);
    }
}

} // verus!
