use vstd::prelude::*;
use crate::atom::{parents_of, SemanticAtom, StoreError, CONFIDENCE_SCALE};
use crate::index::{
    buckets_of, keys_of, lemma_absent_key, lemma_same_filing, lemma_slots_bounded,
    lemma_timeline_shape, same_filing, slots_where, timeline_of, Facet, KeyIndex, TimeIndex,
};
use crate::query::{insert_ranked, ranked};
use crate::text::{concept_matches, lower_of, matches_concept, same_folded};

verus! {

/// The atoms that a sequence of references points at.
pub open spec fn derefs(r: Seq<&SemanticAtom>) -> Seq<SemanticAtom> {
    Seq::new(r.len(), |j: int| *r[j])
}

/// Whether some atom of `atoms` has id `id`.
pub open spec fn has_id(atoms: Seq<SemanticAtom>, id: Seq<char>) -> bool {
    exists|j: int| 0 <= j < atoms.len() && #[trigger] atoms[j].id@ == id
}

/// The invariants of a committed atom sequence: ids are unique, confidences are
/// in range, and every parent is an earlier atom, so lineage is acyclic.
pub open spec fn valid_store(atoms: Seq<SemanticAtom>) -> bool {
    &&& forall|i: int, j: int| 0 <= i < j < atoms.len() ==> atoms[i].id@ != atoms[j].id@
    &&& forall|i: int| 0 <= i < atoms.len() ==> #[trigger] atoms[i].confidence <= CONFIDENCE_SCALE
    &&& forall|i: int, k: int|
        0 <= i < atoms.len() && 0 <= k < parents_of(atoms[i]).len() ==> #[trigger] parent_precedes(
            atoms,
            i,
            k,
        )
}

/// The `k`-th parent of the atom in slot `i` is an atom in an earlier slot.
pub open spec fn parent_precedes(atoms: Seq<SemanticAtom>, i: int, k: int) -> bool {
    exists|j: int| 0 <= j < i && #[trigger] atoms[j].id@ == parents_of(atoms[i])[k]
}

/// Why inserting `a` into `atoms` is refused, if it is; checked in this order.
pub open spec fn insert_refusal(atoms: Seq<SemanticAtom>, a: SemanticAtom) -> Option<StoreError> {
    if has_id(atoms, a.id@) {
        Some(StoreError::DuplicateId)
    } else if a.confidence > CONFIDENCE_SCALE {
        Some(StoreError::InvalidConfidence)
    } else if parents_of(a).contains(a.id@) {
        Some(StoreError::CycleDetected)
    } else if exists|k: int| 0 <= k < parents_of(a).len() && !has_id(atoms, #[trigger] parents_of(a)[k]) {
        Some(StoreError::DanglingParent)
    } else {
        None
    }
}

/// The atom store with its four synchronized indices.
pub struct AtomStore {
    atoms: Vec<SemanticAtom>,
    concepts: KeyIndex,
    agents: KeyIndex,
    sources: KeyIndex,
    timeline: TimeIndex,
}

impl AtomStore {
    /// The committed atoms, in insertion order; an atom's slot is its position here.
    pub closed spec fn atoms(&self) -> Seq<SemanticAtom> {
        self.atoms@
    }

    pub closed spec fn concept_buckets(&self) -> Seq<(Seq<char>, Seq<usize>)> {
        self.concepts.buckets()
    }

    pub closed spec fn agent_buckets(&self) -> Seq<(Seq<char>, Seq<usize>)> {
        self.agents.buckets()
    }

    pub closed spec fn source_buckets(&self) -> Seq<(Seq<char>, Seq<usize>)> {
        self.sources.buckets()
    }

    pub closed spec fn timeline(&self) -> Seq<(u64, usize)> {
        self.timeline.entries()
    }

    /// The indices are exactly those that the atom sequence determines.
    pub open spec fn indexed(&self) -> bool {
        &&& self.concept_buckets() == buckets_of(self.atoms(), Facet::Concept)
        &&& self.agent_buckets() == buckets_of(self.atoms(), Facet::Agent)
        &&& self.source_buckets() == buckets_of(self.atoms(), Facet::Source)
        &&& self.timeline() == timeline_of(self.atoms())
    }

    pub closed spec fn wf(&self) -> bool {
        &&& valid_store(self.atoms@)
        &&& self.atoms@.len() <= usize::MAX
        &&& self.concepts.wf()
        &&& self.agents.wf()
        &&& self.sources.wf()
        &&& self.indexed()
    }

    /// What every well-formed store guarantees of itself.
    pub proof fn lemma_wf(&self)
        requires
            self.wf(),
        ensures
            valid_store(self.atoms()),
            self.indexed(),
            self.atoms().len() <= usize::MAX,
    {
    }

    pub fn new() -> (r: Self)
        ensures
            r.wf(),
            r.atoms() == Seq::<SemanticAtom>::empty(),
    {
        let r = AtomStore {
            atoms: Vec::new(),
            concepts: KeyIndex::new(),
            agents: KeyIndex::new(),
            sources: KeyIndex::new(),
            timeline: TimeIndex::new(),
        };
        assert(buckets_of(Seq::empty(), Facet::Concept) =~= Seq::<(Seq<char>, Seq<usize>)>::empty());
        assert(buckets_of(Seq::empty(), Facet::Agent) =~= Seq::<(Seq<char>, Seq<usize>)>::empty());
        assert(buckets_of(Seq::empty(), Facet::Source) =~= Seq::<(Seq<char>, Seq<usize>)>::empty());
        r
    }

    pub fn len(&self) -> (r: usize)
        ensures
            r == self.atoms().len(),
    {
        self.atoms.len()
    }

    /// The number of distinct concepts indexed.
    pub fn concept_count(&self) -> (r: usize)
        requires
            self.wf(),
        ensures
            r == keys_of(self.atoms(), Facet::Concept).len(),
    {
        self.concepts.len()
    }

    /// The number of distinct agents indexed.
    pub fn agent_count(&self) -> (r: usize)
        requires
            self.wf(),
        ensures
            r == keys_of(self.atoms(), Facet::Agent).len(),
    {
        self.agents.len()
    }

    /// The number of distinct sources indexed.
    pub fn source_count(&self) -> (r: usize)
        requires
            self.wf(),
        ensures
            r == keys_of(self.atoms(), Facet::Source).len(),
    {
        self.sources.len()
    }

    /// The slot of the atom with id `id`.
    fn slot_of(&self, id: &String) -> (r: Option<usize>)
        ensures
            match r {
                Some(i) => i < self.atoms().len() && self.atoms()[i as int].id@ == id@,
                None => !has_id(self.atoms(), id@),
            },
    {
        let mut i: usize = 0;
        while i < self.atoms.len()
            invariant
                i <= self.atoms@.len(),
                forall|j: int| 0 <= j < i ==> self.atoms@[j].id@ != id@,
            decreases self.atoms@.len() - i,
        {
            if self.atoms[i].id == *id {
                return Some(i);
            }
            i = i + 1;
        }
        None
    }

    /// The atom with id `id`, if the store holds one.
    pub fn get(&self, id: &String) -> (r: Option<&SemanticAtom>)
        ensures
            match r {
                Some(a) => exists|i: int| 0 <= i < self.atoms().len() && self.atoms()[i] == *a
                    && a.id@ == id@,
                None => !has_id(self.atoms(), id@),
            },
    {
        match self.slot_of(id) {
            Some(i) => Some(&self.atoms[i]),
            None => None,
        }
    }

    /// The atom in slot `i`.
    pub fn at(&self, i: usize) -> (r: &SemanticAtom)
        requires
            i < self.atoms().len(),
        ensures
            *r == self.atoms()[i as int],
    {
        &self.atoms[i]
    }

    /// Every atom, in insertion order.
    pub fn all(&self) -> (r: Vec<&SemanticAtom>)
        ensures
            derefs(r@) == self.atoms(),
    {
        let mut r: Vec<&SemanticAtom> = Vec::new();
        let mut i: usize = 0;
        while i < self.atoms.len()
            invariant
                i <= self.atoms@.len(),
                r@.len() == i,
                derefs(r@) == self.atoms@.take(i as int),
            decreases self.atoms@.len() - i,
        {
            let ghost prev = r@;
            r.push(&self.atoms[i]);
            i = i + 1;
            assert forall|j: int| 0 <= j < i implies derefs(r@)[j] == self.atoms@.take(i as int)[j] by {
                if j < i - 1 {
                    assert(r@[j] == prev[j]);
                    assert(derefs(prev)[j] == self.atoms@.take(i - 1)[j]);
                }
            }
            assert(derefs(r@) =~= self.atoms@.take(i as int));
        }
        assert(self.atoms@.take(i as int) =~= self.atoms@);
        r
    }

    /// Why `atom` would be refused, checked in the order `insert_refusal` gives.
    fn refusal(&self, atom: &SemanticAtom) -> (r: Option<StoreError>)
        ensures
            r == insert_refusal(self.atoms(), *atom),
    {
        match self.slot_of(&atom.id) {
            Some(i) => {
                assert(self.atoms()[i as int].id@ == atom.id@);
                return Some(StoreError::DuplicateId);
            },
            None => {},
        }
        if atom.confidence > CONFIDENCE_SCALE {
            return Some(StoreError::InvalidConfidence);
        }
        let mut k: usize = 0;
        while k < atom.parent_sources.len()
            invariant
                k <= parents_of(*atom).len(),
                !has_id(self.atoms(), atom.id@),
                atom.confidence <= CONFIDENCE_SCALE,
                forall|j: int| 0 <= j < k ==> parents_of(*atom)[j] != atom.id@,
            decreases atom.parent_sources@.len() - k,
        {
            if atom.parent_sources[k] == atom.id {
                assert(parents_of(*atom)[k as int] == atom.id@);
                assert(parents_of(*atom).contains(atom.id@));
                return Some(StoreError::CycleDetected);
            }
            k = k + 1;
        }
        let mut k: usize = 0;
        while k < atom.parent_sources.len()
            invariant
                k <= parents_of(*atom).len(),
                !has_id(self.atoms(), atom.id@),
                atom.confidence <= CONFIDENCE_SCALE,
                !parents_of(*atom).contains(atom.id@),
                forall|j: int| 0 <= j < k ==> has_id(self.atoms(), #[trigger] parents_of(*atom)[j]),
            decreases atom.parent_sources@.len() - k,
        {
            match self.slot_of(&atom.parent_sources[k]) {
                Some(i) => {
                    assert(self.atoms()[i as int].id@ == parents_of(*atom)[k as int]);
                },
                None => {
                    assert(!has_id(self.atoms(), parents_of(*atom)[k as int]));
                    return Some(StoreError::DanglingParent);
                },
            }
            k = k + 1;
        }
        proof {
            if parents_of(*atom).contains(atom.id@) {
                let j = choose|j: int| 0 <= j < parents_of(*atom).len() && parents_of(*atom)[j] == atom.id@;
                assert(parents_of(*atom)[j] != atom.id@);
            }
        }
        None
    }

    /// Validates `atom` and commits it, filing it in all four indices in the same
    /// step; on refusal nothing changes.
    pub fn insert(&mut self, atom: SemanticAtom) -> (r: Result<(), StoreError>)
        requires
            old(self).wf(),
            old(self).atoms().len() < usize::MAX,
        ensures
            final(self).wf(),
            match insert_refusal(old(self).atoms(), atom) {
                Some(e) => r == Err::<(), StoreError>(e) && final(self).atoms() == old(self).atoms(),
                None => r is Ok && final(self).atoms() == old(self).atoms().push(atom),
            },
    {
        match self.refusal(&atom) {
            Some(e) => {
                return Err(e);
            },
            None => {},
        }
        let ghost prev = self.atoms@;
        self.atoms.push(atom);
        proof {
            lemma_commit_valid(prev, atom);
            assert(self.atoms@.drop_last() == prev);
        }
        self.concepts.index_last(&self.atoms, Facet::Concept);
        self.agents.index_last(&self.atoms, Facet::Agent);
        self.sources.index_last(&self.atoms, Facet::Source);
        self.timeline.index_last(&self.atoms);
        Ok(())
    }

    /// The atoms filed under `k` in `index`, which is this store's mapping `f`.
    fn collect(&self, index: &KeyIndex, f: Facet, k: &String) -> (r: Vec<&SemanticAtom>)
        requires
            self.wf(),
            index.wf(),
            index.buckets() == buckets_of(self.atoms(), f),
        ensures
            derefs(r@) == filed_under(self.atoms(), f, k@),
    {
        let ghost atoms = self.atoms@;
        let ghost want = slots_where(atoms, f, k@);
        proof {
            lemma_slots_bounded(atoms, f, k@);
        }
        let mut r: Vec<&SemanticAtom> = Vec::new();
        match index.find(k) {
            None => {
                proof {
                    if keys_of(atoms, f).contains(k@) {
                        let b = choose|b: int| 0 <= b < keys_of(atoms, f).len() && keys_of(atoms, f)[b] == k@;
                        assert(index.buckets()[b].0 == k@);
                    }
                    lemma_absent_key(atoms, f, k@);
                }
                assert(derefs(r@) =~= filed_under(atoms, f, k@));
            },
            Some(b) => {
                assert(index.buckets()[b as int] == buckets_of(atoms, f)[b as int]);
                assert(index.buckets()[b as int].1 == want);
                let n = index.bucket_len(b);
                let mut j: usize = 0;
                while j < n
                    invariant
                        self.wf(),
                        atoms == self.atoms@,
                        index.wf(),
                        b < index.buckets().len(),
                        index.buckets()[b as int].1 == want,
                        n == want.len(),
                        j <= n,
                        r@.len() == j,
                        forall|i: int| 0 <= i < want.len() ==> want[i] < atoms.len(),
                        derefs(r@) == atoms_at(atoms, want.take(j as int)),
                    decreases n - j,
                {
                    let i = index.slot(b, j);
                    let ghost prev = r@;
                    r.push(&self.atoms[i]);
                    j = j + 1;
                    assert forall|t: int| 0 <= t < j implies derefs(r@)[t] == atoms_at(atoms, want.take(j as int))[t] by {
                        if t < j - 1 {
                            assert(r@[t] == prev[t]);
                            assert(derefs(prev)[t] == atoms_at(atoms, want.take(j - 1))[t]);
                        }
                    }
                    assert(derefs(r@) =~= atoms_at(atoms, want.take(j as int)));
                }
                assert(want.take(n as int) =~= want);
            },
        }
        r
    }

    /// The atoms extracted by agent `agent`, in insertion order; empty for an
    /// unknown agent.
    pub fn filter_by_agent(&self, agent: &String) -> (r: Vec<&SemanticAtom>)
        requires
            self.wf(),
        ensures
            derefs(r@) == filed_under(self.atoms(), Facet::Agent, agent@),
    {
        self.collect(&self.agents, Facet::Agent, agent)
    }

    /// The atoms from source `source`, in insertion order; empty for an unknown
    /// source.
    pub fn filter_by_source(&self, source: &String) -> (r: Vec<&SemanticAtom>)
        requires
            self.wf(),
        ensures
            derefs(r@) == filed_under(self.atoms(), Facet::Source, source@),
    {
        self.collect(&self.sources, Facet::Source, source)
    }

    /// The atoms with exactly the concept `concept`, in insertion order.
    pub fn filter_by_concept(&self, concept: &String) -> (r: Vec<&SemanticAtom>)
        requires
            self.wf(),
        ensures
            derefs(r@) == filed_under(self.atoms(), Facet::Concept, concept@),
    {
        self.collect(&self.concepts, Facet::Concept, concept)
    }

    /// The atoms stamped within `start..=end`, in temporal-index order.
    pub fn range_by_time(&self, start: u64, end: u64) -> (r: Result<Vec<&SemanticAtom>, StoreError>)
        requires
            self.wf(),
        ensures
            start > end ==> r == Err::<Vec<&SemanticAtom>, StoreError>(StoreError::InvalidRange),
            start <= end ==> r is Ok && derefs(r->Ok_0@) == in_time_range(self.atoms(), start, end),
    {
        if start > end {
            return Err(StoreError::InvalidRange);
        }
        let ghost atoms = self.atoms@;
        let ghost entries = timeline_of(atoms);
        proof {
            lemma_timeline_shape(atoms);
        }
        let mut r: Vec<&SemanticAtom> = Vec::new();
        let n = self.timeline.len();
        let mut i: usize = 0;
        while i < n
            invariant
                self.wf(),
                atoms == self.atoms@,
                entries == self.timeline.entries(),
                n == entries.len(),
                i <= n,
                forall|t: int| 0 <= t < entries.len() ==> entries[t].1 < atoms.len(),
                derefs(r@) == window(entries.take(i as int), start, end).map_values(
                    |e: (u64, usize)| atoms[e.1 as int],
                ),
            decreases n - i,
        {
            let e = self.timeline.entry(i);
            let ghost prev = r@;
            proof {
                reveal(Seq::filter);
                assert(entries.take(i + 1).drop_last() =~= entries.take(i as int));
            }
            if start <= e.0 && e.0 <= end {
                r.push(&self.atoms[e.1]);
                assert(derefs(r@) =~= derefs(prev).push(atoms[e.1 as int]));
            }
            i = i + 1;
            proof {
                let w = window(entries.take(i as int), start, end).map_values(
                    |e: (u64, usize)| atoms[e.1 as int],
                );
                assert(derefs(r@) =~= w);
            }
        }
        assert(entries.take(n as int) =~= entries);
        Ok(r)
    }

    /// The atoms whose concept contains `query`, folding case unless
    /// `case_sensitive`, by descending confidence, then ascending timestamp;
    /// matches are read from the concept index, and atoms tied on both keys keep
    /// the order in which the index lists them.
    pub fn search_by_concept(&self, query: &String, case_sensitive: bool) -> (r: Result<Vec<&SemanticAtom>, StoreError>)
        requires
            self.wf(),
        ensures
            query@.len() == 0 ==> r == Err::<Vec<&SemanticAtom>, StoreError>(StoreError::EmptyQuery),
            query@.len() > 0 ==> r is Ok && derefs(r->Ok_0@) == ranked(
                concept_hits(self.atoms(), query@, case_sensitive),
            ),
    {
        if query.as_str().is_empty() {
            return Err(StoreError::EmptyQuery);
        }
        let ghost atoms = self.atoms@;
        let ghost keys = keys_of(atoms, Facet::Concept);
        let mut r: Vec<&SemanticAtom> = Vec::new();
        let nb = self.concepts.len();
        let mut b: usize = 0;
        assert(derefs(r@) =~= ranked(hits_in(atoms, keys.take(0), query@, case_sensitive)));
        while b < nb
            invariant
                self.wf(),
                atoms == self.atoms@,
                keys == keys_of(atoms, Facet::Concept),
                nb == keys.len(),
                b <= nb,
                derefs(r@) == ranked(hits_in(atoms, keys.take(b as int), query@, case_sensitive)),
            decreases nb - b,
        {
            let ghost before = hits_in(atoms, keys.take(b as int), query@, case_sensitive);
            let ghost k = keys[b as int];
            let ghost bucket = slots_where(atoms, Facet::Concept, k);
            proof {
                assert(keys.take(b + 1).drop_last() =~= keys.take(b as int));
                assert(self.concepts.buckets()[b as int] == buckets_of(atoms, Facet::Concept)[b as int]);
                lemma_slots_bounded(atoms, Facet::Concept, k);
            }
            if matches_concept(self.concepts.key(b), query, case_sensitive) {
                let n = self.concepts.bucket_len(b);
                let mut j: usize = 0;
                assert(before + atoms_at(atoms, bucket.take(0)) =~= before);
                while j < n
                    invariant
                        self.wf(),
                        atoms == self.atoms@,
                        b < self.concepts.buckets().len(),
                        self.concepts.buckets()[b as int].1 == bucket,
                        n == bucket.len(),
                        j <= n,
                        forall|t: int| 0 <= t < bucket.len() ==> bucket[t] < atoms.len(),
                        derefs(r@) == ranked(before + atoms_at(atoms, bucket.take(j as int))),
                    decreases n - j,
                {
                    let i = self.concepts.slot(b, j);
                    assert(before + atoms_at(atoms, bucket.take(j + 1)) =~= (before + atoms_at(
                        atoms,
                        bucket.take(j as int),
                    )).push(atoms[i as int]));
                    insert_ranked(&mut r, &self.atoms[i], Ghost(before + atoms_at(atoms, bucket.take(j as int))));
                    j = j + 1;
                }
                assert(bucket.take(n as int) =~= bucket);
            }
            b = b + 1;
        }
        assert(keys.take(nb as int) =~= keys);
        Ok(r)
    }

    /// The `n` highest-ranked atoms of the whole store (all of them if there are
    /// fewer), by descending confidence, then ascending timestamp.
    pub fn top_k_by_confidence(&self, n: usize) -> (r: Vec<&SemanticAtom>)
        requires
            self.wf(),
        ensures
            derefs(r@) == ranked(self.atoms()).take(
                if n < self.atoms().len() { n as int } else { self.atoms().len() as int },
            ),
    {
        let ghost atoms = self.atoms@;
        let mut r: Vec<&SemanticAtom> = Vec::new();
        let mut i: usize = 0;
        assert(derefs(r@) =~= ranked(atoms.take(0)));
        while i < self.atoms.len()
            invariant
                atoms == self.atoms@,
                i <= atoms.len(),
                derefs(r@) == ranked(atoms.take(i as int)),
            decreases atoms.len() - i,
        {
            assert(atoms.take(i + 1) =~= atoms.take(i as int).push(atoms[i as int]));
            insert_ranked(&mut r, &self.atoms[i], Ghost(atoms.take(i as int)));
            i = i + 1;
        }
        assert(atoms.take(i as int) =~= atoms);
        proof {
            crate::query::lemma_ranked_sorted(atoms);
        }
        if n < r.len() {
            let ghost full = r@;
            r.truncate(n);
            assert(derefs(r@) =~= derefs(full).take(n as int));
        }
        r
    }

    /// Raises the confidence of atom `id` to `new_confidence`; a lower value is
    /// refused and the stored one kept.
    pub fn revise_confidence(&mut self, id: &String, new_confidence: u32) -> (r: Result<(), StoreError>)
        requires
            old(self).wf(),
        ensures
            final(self).wf(),
            match revision_refusal(old(self).atoms(), id@, new_confidence) {
                Some(e) => r == Err::<(), StoreError>(e) && final(self).atoms() == old(self).atoms(),
                None => r is Ok && final(self).atoms() == old(self).atoms().update(
                    slot_for(old(self).atoms(), id@),
                    with_confidence(old(self).atoms()[slot_for(old(self).atoms(), id@)], new_confidence),
                ),
            },
    {
        let i = match self.slot_of(id) {
            Some(i) => i,
            None => {
                return Err(StoreError::UnknownId);
            },
        };
        proof {
            let j = slot_for(self.atoms@, id@);
            assert(self.atoms@[i as int].id@ == id@);
            assert(j == i);
        }
        if new_confidence > CONFIDENCE_SCALE {
            return Err(StoreError::InvalidConfidence);
        }
        if new_confidence < self.atoms[i].confidence {
            return Err(StoreError::ConfidenceRegression);
        }
        let ghost prev = self.atoms@;
        let mut a = self.atoms.remove(i);
        a.confidence = new_confidence;
        self.atoms.insert(i, a);
        proof {
            let now = self.atoms@;
            assert(now =~= prev.update(i as int, with_confidence(prev[i as int], new_confidence)));
            assert(same_filing(prev, now));
            lemma_same_filing(prev, now, Facet::Concept);
            lemma_same_filing(prev, now, Facet::Agent);
            lemma_same_filing(prev, now, Facet::Source);
            assert forall|t: int, k: int|
                0 <= t < now.len() && 0 <= k < parents_of(now[t]).len() implies #[trigger] parent_precedes(now, t, k) by {
                assert(parent_precedes(prev, t, k));
                let j = choose|j: int| 0 <= j < t && #[trigger] prev[j].id@ == parents_of(prev[t])[k];
                assert(now[j].id@ == parents_of(now[t])[k]);
            }
            assert forall|t: int, u: int| 0 <= t < u < now.len() implies now[t].id@ != now[u].id@ by {
                assert(prev[t].id@ != prev[u].id@);
            }
            assert forall|t: int| 0 <= t < now.len() implies #[trigger] now[t].confidence <= CONFIDENCE_SCALE by {
                assert(prev[t].confidence <= CONFIDENCE_SCALE);
            }
        }
        Ok(())
    }

    /// Replaces the whole store by `atoms`, inserted in order; if any of them is
    /// refused, the error is returned and the store (atoms and indices) is kept.
    pub fn rebuild_from(&mut self, atoms: Vec<SemanticAtom>) -> (r: Result<(), StoreError>)
        requires
            old(self).wf(),
        ensures
            final(self).wf(),
            match first_refusal(atoms@) {
                Some(e) => r == Err::<(), StoreError>(e) && *final(self) == *old(self),
                None => r is Ok && final(self).atoms() == atoms@,
            },
    {
        let ghost input = atoms@;
        let total = atoms.len();
        let mut rest = atoms;
        let mut fresh = AtomStore::new();
        assert(input.take(0) =~= Seq::<SemanticAtom>::empty());
        while rest.len() > 0
            invariant
                *self == *old(self),
                self.wf(),
                fresh.wf(),
                total == input.len(),
                input == atoms@,
                fresh.atoms().len() + rest@.len() == total,
                rest@ == input.subrange(fresh.atoms().len() as int, total as int),
                fresh.atoms() == input.take(fresh.atoms().len() as int),
                first_refusal(fresh.atoms()) is None,
            decreases rest@.len(),
        {
            let ghost m = fresh.atoms().len() as int;
            let a = rest.remove(0);
            proof {
                assert(a == input[m]);
                assert(input.take(m + 1).drop_last() =~= input.take(m));
                assert(input.take(m + 1).last() == input[m]);
            }
            match fresh.insert(a) {
                Ok(()) => {
                    assert(fresh.atoms() =~= input.take(m + 1));
                    assert(rest@ =~= input.subrange(m + 1, total as int));
                },
                Err(e) => {
                    proof {
                        assert(insert_refusal(input.take(m), input[m]) == Some(e));
                        assert(first_refusal(input.take(m + 1)) == Some(e));
                        lemma_refusal_prefix(input, m + 1);
                    }
                    return Err(e);
                },
            }
        }
        assert(input.take(total as int) =~= input);
        *self = fresh;
        Ok(())
    }

    /// The stored atoms that may restate `atom` (same concept up to case, a shared
    /// parent), by descending confidence, then ascending timestamp. Advisory only:
    /// nothing is merged or refused.
    pub fn find_duplicate_candidates(&self, atom: &SemanticAtom) -> (r: Vec<&SemanticAtom>)
        ensures
            derefs(r@) == ranked(candidates(self.atoms(), *atom)),
    {
        let ghost atoms = self.atoms@;
        let mut r: Vec<&SemanticAtom> = Vec::new();
        let mut i: usize = 0;
        proof {
            reveal(Seq::filter);
            assert(derefs(r@) =~= ranked(candidates(atoms.take(0), *atom)));
        }
        while i < self.atoms.len()
            invariant
                atoms == self.atoms@,
                i <= atoms.len(),
                derefs(r@) == ranked(candidates(atoms.take(i as int), *atom)),
            decreases atoms.len() - i,
        {
            let e = &self.atoms[i];
            let ghost found = candidates(atoms.take(i as int), *atom);
            proof {
                reveal(Seq::filter);
                assert(atoms.take(i + 1).drop_last() =~= atoms.take(i as int));
            }
            if same_folded(&e.concept, &atom.concept) && shares_parent(e, atom) {
                insert_ranked(&mut r, e, Ghost(found));
            }
            i = i + 1;
        }
        assert(atoms.take(i as int) =~= atoms);
        r
    }
}

/// The slot of the atom with id `id`, where there is one.
pub open spec fn slot_for(atoms: Seq<SemanticAtom>, id: Seq<char>) -> int {
    choose|i: int| 0 <= i < atoms.len() && #[trigger] atoms[i].id@ == id
}

/// `a` with its confidence replaced by `c`.
pub open spec fn with_confidence(a: SemanticAtom, c: u32) -> SemanticAtom {
    SemanticAtom { confidence: c, ..a }
}

/// Why revising the confidence of atom `id` to `c` is refused, if it is.
pub open spec fn revision_refusal(atoms: Seq<SemanticAtom>, id: Seq<char>, c: u32) -> Option<StoreError> {
    if !has_id(atoms, id) {
        Some(StoreError::UnknownId)
    } else if c > CONFIDENCE_SCALE {
        Some(StoreError::InvalidConfidence)
    } else if c < atoms[slot_for(atoms, id)].confidence {
        Some(StoreError::ConfidenceRegression)
    } else {
        None
    }
}

/// The first refusal met when inserting `atoms` one by one into an empty store.
pub open spec fn first_refusal(atoms: Seq<SemanticAtom>) -> Option<StoreError>
    decreases atoms.len(),
{
    if atoms.len() == 0 {
        None
    } else {
        match first_refusal(atoms.drop_last()) {
            Some(e) => Some(e),
            None => insert_refusal(atoms.drop_last(), atoms.last()),
        }
    }
}

/// A refusal met on a prefix is the refusal of the whole sequence.
pub proof fn lemma_refusal_prefix(s: Seq<SemanticAtom>, m: int)
    requires
        0 <= m <= s.len(),
        first_refusal(s.take(m)) is Some,
    ensures
        first_refusal(s) == first_refusal(s.take(m)),
    decreases s.len(),
{
    if m == s.len() {
        assert(s.take(m) =~= s);
    } else {
        assert(s.drop_last().take(m) =~= s.take(m));
        lemma_refusal_prefix(s.drop_last(), m);
    }
}

/// What `hits_in` holds: only atoms whose concept matches, and every atom filed
/// under a matching key of `keys`.
pub proof fn lemma_hits_in(atoms: Seq<SemanticAtom>, keys: Seq<Seq<char>>, query: Seq<char>, case_sensitive: bool)
    requires
        atoms.len() <= usize::MAX,
    ensures
        forall|e: SemanticAtom|
            hits_in(atoms, keys, query, case_sensitive).contains(e) ==> concept_matches(
                e.concept@,
                query,
                case_sensitive,
            ),
        forall|i: int|
            0 <= i < atoms.len() && keys.contains(atoms[i].concept@) && concept_matches(
                atoms[i].concept@,
                query,
                case_sensitive,
            ) ==> hits_in(atoms, keys, query, case_sensitive).contains(#[trigger] atoms[i]),
    decreases keys.len(),
{
    if keys.len() > 0 {
        let prev = keys.drop_last();
        let k = keys.last();
        lemma_hits_in(atoms, prev, query, case_sensitive);
        let rest = hits_in(atoms, prev, query, case_sensitive);
        let h = hits_in(atoms, keys, query, case_sensitive);
        let fu = filed_under(atoms, Facet::Concept, k);
        lemma_slots_bounded(atoms, Facet::Concept, k);
        crate::index::lemma_slots_members(atoms, Facet::Concept, k);
        assert forall|e: SemanticAtom| h.contains(e) implies concept_matches(e.concept@, query, case_sensitive) by {
            let j = choose|j: int| 0 <= j < h.len() && h[j] == e;
            if j < rest.len() {
                assert(h[j] == rest[j]);
                assert(rest.contains(e));
            } else {
                assert(h[j] == fu[j - rest.len()]);
            }
        }
        assert forall|i: int|
            0 <= i < atoms.len() && keys.contains(atoms[i].concept@) && concept_matches(
                atoms[i].concept@,
                query,
                case_sensitive,
            ) implies h.contains(#[trigger] atoms[i]) by {
            if atoms[i].concept@ == k {
                let sl = slots_where(atoms, Facet::Concept, k);
                assert(sl.contains(i as usize));
                let j = choose|j: int| 0 <= j < sl.len() && sl[j] == i as usize;
                assert(h[rest.len() + j] == fu[j]);
            } else {
                let j = choose|j: int| 0 <= j < keys.len() && keys[j] == atoms[i].concept@;
                assert(prev[j] == keys[j]);
                assert(rest.contains(atoms[i]));
                let t = choose|t: int| 0 <= t < rest.len() && rest[t] == atoms[i];
                if concept_matches(k, query, case_sensitive) {
                    assert(h[t] == rest[t]);
                }
            }
        }
    }
}

/// Whether `a` and `b` name a common parent.
pub open spec fn lineage_overlaps(a: SemanticAtom, b: SemanticAtom) -> bool {
    exists|j: int| 0 <= j < parents_of(b).len() && parents_of(a).contains(#[trigger] parents_of(b)[j])
}

/// Whether the stored atom `e` may restate `a`: the same concept up to case, and
/// a shared parent.
pub open spec fn duplicate_candidate(e: SemanticAtom, a: SemanticAtom) -> bool {
    lower_of(e.concept@) == lower_of(a.concept@) && lineage_overlaps(e, a)
}

/// The stored atoms that may restate `a`, in insertion order.
pub open spec fn candidates(atoms: Seq<SemanticAtom>, a: SemanticAtom) -> Seq<SemanticAtom> {
    atoms.filter(|e: SemanticAtom| duplicate_candidate(e, a))
}

/// Whether `a` and `b` name a common parent.
pub fn shares_parent(a: &SemanticAtom, b: &SemanticAtom) -> (r: bool)
    ensures
        r == lineage_overlaps(*a, *b),
{
    let mut j: usize = 0;
    while j < b.parent_sources.len()
        invariant
            j <= parents_of(*b).len(),
            forall|t: int| 0 <= t < j ==> !parents_of(*a).contains(#[trigger] parents_of(*b)[t]),
        decreases b.parent_sources@.len() - j,
    {
        let mut i: usize = 0;
        while i < a.parent_sources.len()
            invariant
                j < parents_of(*b).len(),
                i <= parents_of(*a).len(),
                forall|t: int| 0 <= t < i ==> parents_of(*a)[t] != parents_of(*b)[j as int],
            decreases a.parent_sources@.len() - i,
        {
            if a.parent_sources[i] == b.parent_sources[j] {
                assert(parents_of(*a)[i as int] == parents_of(*b)[j as int]);
                assert(parents_of(*a).contains(parents_of(*b)[j as int]));
                return true;
            }
            i = i + 1;
        }
        assert(!parents_of(*a).contains(parents_of(*b)[j as int]));
        j = j + 1;
    }
    false
}

/// The atoms in the given slots, in that order.
pub open spec fn atoms_at(atoms: Seq<SemanticAtom>, slots: Seq<usize>) -> Seq<SemanticAtom> {
    slots.map_values(|i: usize| atoms[i as int])
}

/// The atoms filed under key `k` of a keyed mapping, in insertion order.
pub open spec fn filed_under(atoms: Seq<SemanticAtom>, f: Facet, k: Seq<char>) -> Seq<SemanticAtom> {
    atoms_at(atoms, slots_where(atoms, f, k))
}

/// The temporal entries stamped within `start..=end`, in index order.
pub open spec fn window(entries: Seq<(u64, usize)>, start: u64, end: u64) -> Seq<(u64, usize)> {
    entries.filter(|e: (u64, usize)| start <= e.0 && e.0 <= end)
}

/// The atoms stamped within `start..=end`, in temporal-index order.
pub open spec fn in_time_range(atoms: Seq<SemanticAtom>, start: u64, end: u64) -> Seq<SemanticAtom> {
    window(timeline_of(atoms), start, end).map_values(|e: (u64, usize)| atoms[e.1 as int])
}

/// The atoms filed under those of `keys` that match `query`, key by key.
pub open spec fn hits_in(
    atoms: Seq<SemanticAtom>,
    keys: Seq<Seq<char>>,
    query: Seq<char>,
    case_sensitive: bool,
) -> Seq<SemanticAtom>
    decreases keys.len(),
{
    if keys.len() == 0 {
        Seq::empty()
    } else {
        let rest = hits_in(atoms, keys.drop_last(), query, case_sensitive);
        if concept_matches(keys.last(), query, case_sensitive) {
            rest + filed_under(atoms, Facet::Concept, keys.last())
        } else {
            rest
        }
    }
}

/// The atoms whose concept matches `query`, read from the concept index: bucket
/// by bucket in key order, each bucket in insertion order.
pub open spec fn concept_hits(atoms: Seq<SemanticAtom>, query: Seq<char>, case_sensitive: bool) -> Seq<SemanticAtom> {
    hits_in(atoms, keys_of(atoms, Facet::Concept), query, case_sensitive)
}

/// Committing an atom that is not refused keeps the store valid.
pub proof fn lemma_commit_valid(atoms: Seq<SemanticAtom>, a: SemanticAtom)
    requires
        valid_store(atoms),
        insert_refusal(atoms, a) is None,
    ensures
        valid_store(atoms.push(a)),
{
    let s = atoms.push(a);
    let n = atoms.len() as int;
    assert(s[n] == a);
    assert forall|i: int, k: int|
        0 <= i < s.len() && 0 <= k < parents_of(s[i]).len() implies #[trigger] parent_precedes(s, i, k) by {
        if i < n {
            assert(s[i] == atoms[i]);
            assert(parent_precedes(atoms, i, k));
            let j = choose|j: int| 0 <= j < i && atoms[j].id@ == parents_of(atoms[i])[k];
            assert(s[j] == atoms[j]);
            assert(s[j].id@ == parents_of(s[i])[k]);
        } else {
            assert(has_id(atoms, parents_of(a)[k]));
            let j = choose|j: int| 0 <= j < atoms.len() && atoms[j].id@ == parents_of(a)[k];
            assert(s[j] == atoms[j]);
            assert(s[j].id@ == parents_of(s[i])[k]);
        }
    }
    assert forall|i: int, j: int| 0 <= i < j < s.len() implies s[i].id@ != s[j].id@ by {
        if j == n {
            assert(s[i] == atoms[i]);
        } else {
            assert(s[i] == atoms[i] && s[j] == atoms[j]);
        }
    }
    assert forall|i: int| 0 <= i < s.len() implies #[trigger] s[i].confidence <= CONFIDENCE_SCALE by {
        if i < n {
            assert(s[i] == atoms[i]);
        }
    }
}
} // verus!
