use vstd::prelude::*;

verus! {

/// What `str::to_lowercase` makes of a string.
pub uninterp spec fn lower_of(s: Seq<char>) -> Seq<char>;

/// Whether `needle` occurs in `hay` as a contiguous run of characters.
pub open spec fn occurs_in(needle: Seq<char>, hay: Seq<char>) -> bool {
    exists|i: int|
        0 <= i && i + needle.len() <= hay.len() && #[trigger] hay.subrange(i, i + needle.len()) == needle
}

/// Whether a concept label matches a query: a substring test, on the lowercase
/// forms of both unless the match is case-sensitive.
pub open spec fn concept_matches(concept: Seq<char>, query: Seq<char>, case_sensitive: bool) -> bool {
    if case_sensitive {
        occurs_in(query, concept)
    } else {
        occurs_in(lower_of(query), lower_of(concept))
    }
}

/// Relies on `str::to_lowercase`: the result depends on the characters alone.
#[verifier::external_body]
fn lowercase(s: &str) -> (r: String)
    ensures
        r@ == lower_of(s@),
{
    s.to_lowercase()
}

/// Relies on `str::contains` with a string pattern: true exactly when `needle`
/// occurs in `hay`.
#[verifier::external_body]
fn contains_str(hay: &str, needle: &str) -> (r: bool)
    ensures
        r == occurs_in(needle@, hay@),
{
    hay.contains(needle)
}

/// Substring match of `query` within an already folded (or exact) label.
pub fn matches_folded(query: &String, label: &String) -> (r: bool)
    ensures
        r == occurs_in(query@, label@),
{
    contains_str(label.as_str(), query.as_str())
}

/// Whether `concept` matches `query`, folding case unless `case_sensitive`.
pub fn matches_concept(concept: &String, query: &String, case_sensitive: bool) -> (r: bool)
    ensures
        r == concept_matches(concept@, query@, case_sensitive),
{
    if case_sensitive {
        matches_folded(query, concept)
    } else {
        let q = lowercase(query.as_str());
        let c = lowercase(concept.as_str());
        matches_folded(&q, &c)
    }
}

/// Whether two labels are equal once both are lowercased.
pub fn same_folded(a: &String, b: &String) -> (r: bool)
    ensures
        r == (lower_of(a@) == lower_of(b@)),
{
    let la = lowercase(a.as_str());
    let lb = lowercase(b.as_str());
    la == lb
}

} // verus!
