use panini_fs::atom::{SemanticAtom, StoreError, CONFIDENCE_SCALE};
use panini_fs::store::{shares_parent, AtomStore};
use panini_fs::text::{matches_concept, matches_folded, same_folded};

fn atom(id: &str, concept: &str, agent: &str, source: &str, ts: u64, conf: u32, parents: &[&str]) -> SemanticAtom {
    SemanticAtom {
        id: id.to_string(),
        concept: concept.to_string(),
        definition: format!("definition of {}", concept),
        source_agent: agent.to_string(),
        source_type: source.to_string(),
        timestamp: ts,
        confidence: conf,
        parent_sources: parents.iter().map(|p| p.to_string()).collect(),
    }
}

fn ids(v: &[&SemanticAtom]) -> Vec<String> {
    v.iter().map(|a| a.id.clone()).collect()
}

fn sample() -> Vec<SemanticAtom> {
    vec![
        atom("a1", "neural networks", "agent-x", "document", 30, 900_000, &[]),
        atom("a2", "Neural Computation", "agent-y", "conversation", 10, 950_000, &[]),
        atom("a3", "algorithms", "agent-x", "document", 20, 500_000, &["a1"]),
        atom("a4", "neural networks", "agent-z", "derived", 40, 900_000, &["a1", "a2"]),
    ]
}

fn filled() -> AtomStore {
    let mut s = AtomStore::new();
    for a in sample() {
        assert_eq!(s.insert(a), Ok(()));
    }
    s
}

#[test]
fn it_works() {
    assert_eq!(2 + 2, 4);
}

#[test]
fn search_orders_by_descending_confidence() {
    let mut s = AtomStore::new();
    s.insert(atom("a1", "neural networks", "ag", "doc", 1, 900_000, &[])).unwrap();
    s.insert(atom("a2", "Neural Computation", "ag", "doc", 2, 950_000, &[])).unwrap();
    let r = s.search_by_concept(&"neural".to_string(), false).unwrap();
    assert_eq!(ids(&r), vec!["a2", "a1"]);
}

#[test]
fn search_ties_broken_by_earlier_timestamp() {
    let s = filled();
    let r = s.search_by_concept(&"NEURAL".to_string(), false).unwrap();
    assert_eq!(ids(&r), vec!["a2", "a1", "a4"]);
}

#[test]
fn search_case_sensitive_needs_exact_case() {
    let s = filled();
    let r = s.search_by_concept(&"Neural".to_string(), true).unwrap();
    assert_eq!(ids(&r), vec!["a2"]);
}

#[test]
fn search_empty_query_is_an_error() {
    let s = filled();
    assert_eq!(s.search_by_concept(&String::new(), false).err(), Some(StoreError::EmptyQuery));
}

#[test]
fn search_without_hits_is_empty() {
    let s = filled();
    assert!(s.search_by_concept(&"quantum".to_string(), false).unwrap().is_empty());
}

#[test]
fn time_range_is_inclusive() {
    let mut s = AtomStore::new();
    s.insert(atom("t1", "c", "ag", "doc", 100, 1, &[])).unwrap();
    s.insert(atom("t2", "c", "ag", "doc", 200, 1, &[])).unwrap();
    s.insert(atom("t3", "c", "ag", "doc", 300, 1, &[])).unwrap();
    let r = s.range_by_time(100, 200).unwrap();
    assert_eq!(ids(&r), vec!["t1", "t2"]);
}

#[test]
fn time_range_follows_time_order_with_stable_ties() {
    let mut s = filled();
    s.insert(atom("a5", "misc", "agent-x", "document", 20, 1, &[])).unwrap();
    let r = s.range_by_time(0, 35).unwrap();
    assert_eq!(ids(&r), vec!["a2", "a3", "a5", "a1"]);
}

#[test]
fn time_range_rejects_reversed_bounds() {
    let s = filled();
    assert_eq!(s.range_by_time(5, 4).err(), Some(StoreError::InvalidRange));
}

#[test]
fn duplicate_id_is_rejected() {
    let mut s = AtomStore::new();
    assert_eq!(s.insert(atom("x", "c", "ag", "doc", 1, 10, &[])), Ok(()));
    assert_eq!(s.insert(atom("x", "other", "ag", "doc", 2, 20, &[])), Err(StoreError::DuplicateId));
    assert_eq!(s.len(), 1);
    assert_eq!(s.get(&"x".to_string()).unwrap().concept, "c");
}

#[test]
fn out_of_range_confidence_is_rejected() {
    let mut s = AtomStore::new();
    let r = s.insert(atom("x", "c", "ag", "doc", 1, CONFIDENCE_SCALE + 1, &[]));
    assert_eq!(r, Err(StoreError::InvalidConfidence));
    assert!(s.get(&"x".to_string()).is_none());
    assert_eq!(s.insert(atom("y", "c", "ag", "doc", 1, CONFIDENCE_SCALE, &[])), Ok(()));
}

#[test]
fn dangling_parent_is_rejected() {
    let mut s = filled();
    let r = s.insert(atom("n", "c", "ag", "doc", 1, 1, &["a1", "missing"]));
    assert_eq!(r, Err(StoreError::DanglingParent));
    assert!(s.get(&"n".to_string()).is_none());
    assert_eq!(s.len(), 4);
}

#[test]
fn self_parent_is_a_cycle() {
    let mut s = filled();
    let r = s.insert(atom("loop", "c", "ag", "doc", 1, 1, &["a1", "loop"]));
    assert_eq!(r, Err(StoreError::CycleDetected));
    assert!(s.get(&"loop".to_string()).is_none());
    assert_eq!(s.len(), 4);
}

#[test]
fn confidence_revision_only_goes_up() {
    let mut s = filled();
    let id = "a3".to_string();
    assert_eq!(s.revise_confidence(&id, 400_000), Err(StoreError::ConfidenceRegression));
    assert_eq!(s.get(&id).unwrap().confidence, 500_000);
    assert_eq!(s.revise_confidence(&id, 500_000), Ok(()));
    assert_eq!(s.revise_confidence(&id, 700_000), Ok(()));
    assert_eq!(s.get(&id).unwrap().confidence, 700_000);
    assert_eq!(s.revise_confidence(&id, CONFIDENCE_SCALE + 1), Err(StoreError::InvalidConfidence));
    assert_eq!(s.revise_confidence(&"nope".to_string(), 1), Err(StoreError::UnknownId));
    assert_eq!(s.get(&id).unwrap().confidence, 700_000);
}

#[test]
fn revision_reorders_search() {
    let mut s = filled();
    s.revise_confidence(&"a4".to_string(), 990_000).unwrap();
    let r = s.search_by_concept(&"neural".to_string(), false).unwrap();
    assert_eq!(ids(&r), vec!["a4", "a2", "a1"]);
}

#[test]
fn filters_by_agent_and_source() {
    let s = filled();
    assert_eq!(ids(&s.filter_by_agent(&"agent-x".to_string())), vec!["a1", "a3"]);
    assert_eq!(ids(&s.filter_by_source(&"document".to_string())), vec!["a1", "a3"]);
    assert_eq!(ids(&s.filter_by_source(&"derived".to_string())), vec!["a4"]);
    assert!(s.filter_by_agent(&"nobody".to_string()).is_empty());
    assert!(s.filter_by_source(&"nowhere".to_string()).is_empty());
}

#[test]
fn every_atom_is_covered_once() {
    let s = filled();
    let mut seen = 0;
    for a in s.all() {
        assert_eq!(ids(&s.filter_by_concept(&a.concept)).iter().filter(|i| **i == a.id).count(), 1);
        assert_eq!(ids(&s.filter_by_agent(&a.source_agent)).iter().filter(|i| **i == a.id).count(), 1);
        assert_eq!(ids(&s.filter_by_source(&a.source_type)).iter().filter(|i| **i == a.id).count(), 1);
        seen += 1;
    }
    assert_eq!(seen, 4);
    assert_eq!(s.range_by_time(0, u64::MAX).unwrap().len(), 4);
    assert_eq!(s.concept_count(), 3);
    assert_eq!(s.agent_count(), 3);
    assert_eq!(s.source_count(), 3);
}

#[test]
fn rebuild_matches_sequential_inserts() {
    let seq = filled();
    let mut rebuilt = AtomStore::new();
    assert_eq!(rebuilt.rebuild_from(sample()), Ok(()));
    assert_eq!(ids(&rebuilt.all()), ids(&seq.all()));
    assert_eq!(ids(&rebuilt.range_by_time(0, 100).unwrap()), ids(&seq.range_by_time(0, 100).unwrap()));
    assert_eq!(ids(&rebuilt.filter_by_agent(&"agent-x".to_string())), ids(&seq.filter_by_agent(&"agent-x".to_string())));
    assert_eq!(
        ids(&rebuilt.search_by_concept(&"n".to_string(), false).unwrap()),
        ids(&seq.search_by_concept(&"n".to_string(), false).unwrap())
    );
}

#[test]
fn rebuild_twice_gives_same_state() {
    let mut first = AtomStore::new();
    let mut second = AtomStore::new();
    first.rebuild_from(sample()).unwrap();
    second.rebuild_from(sample()).unwrap();
    second.rebuild_from(sample()).unwrap();
    assert_eq!(ids(&first.all()), ids(&second.all()));
    assert_eq!(ids(&first.top_k_by_confidence(10)), ids(&second.top_k_by_confidence(10)));
    assert_eq!(first.concept_count(), second.concept_count());
}

#[test]
fn failed_rebuild_keeps_previous_state() {
    let mut s = filled();
    let mut bad = sample();
    bad.push(atom("b", "c", "ag", "doc", 1, 1, &["ghost"]));
    assert_eq!(s.rebuild_from(bad), Err(StoreError::DanglingParent));
    assert_eq!(s.len(), 4);
    assert_eq!(ids(&s.filter_by_agent(&"agent-x".to_string())), vec!["a1", "a3"]);
}

#[test]
fn top_k_ranks_whole_corpus() {
    let s = filled();
    assert_eq!(ids(&s.top_k_by_confidence(2)), vec!["a2", "a1"]);
    assert_eq!(ids(&s.top_k_by_confidence(10)), vec!["a2", "a1", "a4", "a3"]);
    assert!(s.top_k_by_confidence(0).is_empty());
}

#[test]
fn duplicate_candidates_share_concept_and_parent() {
    let s = filled();
    let probe = atom("p", "Neural Networks", "ag", "doc", 50, 1, &["a2"]);
    assert_eq!(ids(&s.find_duplicate_candidates(&probe)), vec!["a4"]);
    let unrelated = atom("q", "neural networks", "ag", "doc", 50, 1, &["a3"]);
    assert!(s.find_duplicate_candidates(&unrelated).is_empty());
}

#[test]
fn text_helpers_fold_case() {
    assert!(matches_concept(&"Deep Learning".to_string(), &"LEARN".to_string(), false));
    assert!(!matches_concept(&"Deep Learning".to_string(), &"LEARN".to_string(), true));
    assert!(matches_folded(&"learn".to_string(), &"deep learning".to_string()));
    assert!(!matches_folded(&"Learn".to_string(), &"deep learning".to_string()));
    assert!(same_folded(&"ABC".to_string(), &"abc".to_string()));
    assert!(!same_folded(&"ABC".to_string(), &"abd".to_string()));
}

#[test]
fn parent_overlap() {
    let a = atom("a", "c", "ag", "doc", 1, 1, &["p1", "p2"]);
    let b = atom("b", "c", "ag", "doc", 1, 1, &["p3", "p2"]);
    let c = atom("c", "c", "ag", "doc", 1, 1, &["p4"]);
    assert!(shares_parent(&a, &b));
    assert!(!shares_parent(&a, &c));
}
