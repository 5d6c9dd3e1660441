use vstd::prelude::*;
use crate::atom::SemanticAtom;

verus! {

/// The three keyed mappings of the index.
pub enum Facet {
    Concept,
    Agent,
    Source,
}

/// The key an atom is filed under in a keyed mapping.
pub open spec fn facet_key(a: SemanticAtom, f: Facet) -> Seq<char> {
    match f {
        Facet::Concept => a.concept@,
        Facet::Agent => a.source_agent@,
        Facet::Source => a.source_type@,
    }
}

/// Slots (positions in the store) of the atoms filed under `k`, in insertion order.
pub open spec fn slots_where(atoms: Seq<SemanticAtom>, f: Facet, k: Seq<char>) -> Seq<usize>
    decreases atoms.len(),
{
    if atoms.len() == 0 {
        Seq::empty()
    } else {
        let rest = slots_where(atoms.drop_last(), f, k);
        if facet_key(atoms.last(), f) == k {
            rest.push((atoms.len() - 1) as usize)
        } else {
            rest
        }
    }
}

/// The distinct keys of a mapping, in order of first appearance.
pub open spec fn keys_of(atoms: Seq<SemanticAtom>, f: Facet) -> Seq<Seq<char>>
    decreases atoms.len(),
{
    if atoms.len() == 0 {
        Seq::empty()
    } else {
        let rest = keys_of(atoms.drop_last(), f);
        let k = facet_key(atoms.last(), f);
        if rest.contains(k) {
            rest
        } else {
            rest.push(k)
        }
    }
}

/// The buckets a keyed mapping holds for a sequence of atoms.
pub open spec fn buckets_of(atoms: Seq<SemanticAtom>, f: Facet) -> Seq<(Seq<char>, Seq<usize>)> {
    keys_of(atoms, f).map_values(|k: Seq<char>| (k, slots_where(atoms, f, k)))
}

/// The keys of a mapping are distinct.
pub proof fn lemma_keys_unique(atoms: Seq<SemanticAtom>, f: Facet)
    ensures
        forall|i: int, j: int|
            0 <= i < j < keys_of(atoms, f).len() ==> keys_of(atoms, f)[i] != keys_of(atoms, f)[j],
    decreases atoms.len(),
{
    if atoms.len() > 0 {
        let rest = keys_of(atoms.drop_last(), f);
        let k = facet_key(atoms.last(), f);
        lemma_keys_unique(atoms.drop_last(), f);
        if !rest.contains(k) {
            assert forall|i: int, j: int|
                0 <= i < j < keys_of(atoms, f).len() implies keys_of(atoms, f)[i] != keys_of(
                atoms,
                f,
            )[j] by {
                if j == rest.len() {
                    assert(keys_of(atoms, f)[i] == rest[i]);
                }
            }
        }
    }
}

/// A key that the mapping lacks has no atoms filed under it.
pub proof fn lemma_absent_key(atoms: Seq<SemanticAtom>, f: Facet, k: Seq<char>)
    requires
        !keys_of(atoms, f).contains(k),
    ensures
        slots_where(atoms, f, k) == Seq::<usize>::empty(),
    decreases atoms.len(),
{
    if atoms.len() > 0 {
        let rest = keys_of(atoms.drop_last(), f);
        let kl = facet_key(atoms.last(), f);
        if rest.contains(k) {
            let i = choose|i: int| 0 <= i < rest.len() && rest[i] == k;
            assert(keys_of(atoms, f)[i] == k);
        }
        if kl == k {
            if !rest.contains(kl) {
                assert(keys_of(atoms, f)[rest.len() as int] == k);
            }
        }
        lemma_absent_key(atoms.drop_last(), f, k);
    }
}

/// A bucket lists slots of the store, each holding an atom with the bucket's key.
pub proof fn lemma_slots_bounded(atoms: Seq<SemanticAtom>, f: Facet, k: Seq<char>)
    requires
        atoms.len() <= usize::MAX,
    ensures
        forall|j: int|
            0 <= j < slots_where(atoms, f, k).len() ==> slots_where(atoms, f, k)[j] < atoms.len()
                && facet_key(atoms[slots_where(atoms, f, k)[j] as int], f) == k,
    decreases atoms.len(),
{
    if atoms.len() > 0 {
        let prev = atoms.drop_last();
        lemma_slots_bounded(prev, f, k);
        let all = slots_where(atoms, f, k);
        let r = slots_where(prev, f, k);
        assert forall|j: int| 0 <= j < all.len() implies all[j] < atoms.len() && facet_key(
            atoms[all[j] as int],
            f,
        ) == k by {
            if j < r.len() {
                assert(all[j] == r[j]);
                assert(prev[r[j] as int] == atoms[r[j] as int]);
            }
        }
    }
}

/// A keyed mapping: distinct keys, each with the slots filed under it.
pub struct KeyIndex {
    keys: Vec<String>,
    slots: Vec<Vec<usize>>,
}

impl KeyIndex {
    pub closed spec fn buckets(&self) -> Seq<(Seq<char>, Seq<usize>)> {
        Seq::new(self.keys@.len(), |b: int| (self.keys@[b]@, self.slots@[b]@))
    }

    pub closed spec fn wf(&self) -> bool {
        self.keys@.len() == self.slots@.len()
    }

    pub fn new() -> (r: Self)
        ensures
            r.wf(),
            r.buckets() == Seq::<(Seq<char>, Seq<usize>)>::empty(),
    {
        let r = KeyIndex { keys: Vec::new(), slots: Vec::new() };
        assert(r.buckets() =~= Seq::<(Seq<char>, Seq<usize>)>::empty());
        r
    }

    /// The position of the bucket with key `k`, if there is one.
    pub fn find(&self, k: &String) -> (r: Option<usize>)
        requires
            self.wf(),
        ensures
            match r {
                Some(b) => b < self.buckets().len() && self.buckets()[b as int].0 == k@,
                None => forall|b: int| 0 <= b < self.buckets().len() ==> self.buckets()[b].0 != k@,
            },
    {
        let mut b: usize = 0;
        while b < self.keys.len()
            invariant
                self.wf(),
                b <= self.keys@.len(),
                forall|c: int| 0 <= c < b ==> self.buckets()[c].0 != k@,
            decreases self.keys@.len() - b,
        {
            if self.keys[b] == *k {
                return Some(b);
            }
            b = b + 1;
        }
        None
    }

    /// The number of distinct keys.
    pub fn len(&self) -> (r: usize)
        requires
            self.wf(),
        ensures
            r == self.buckets().len(),
    {
        self.keys.len()
    }

    /// The key of bucket `b`.
    pub fn key(&self, b: usize) -> (r: &String)
        requires
            self.wf(),
            b < self.buckets().len(),
        ensures
            r@ == self.buckets()[b as int].0,
    {
        &self.keys[b]
    }

    pub fn bucket_len(&self, b: usize) -> (r: usize)
        requires
            self.wf(),
            b < self.buckets().len(),
        ensures
            r == self.buckets()[b as int].1.len(),
    {
        self.slots[b].len()
    }

    pub fn slot(&self, b: usize, j: usize) -> (r: usize)
        requires
            self.wf(),
            b < self.buckets().len(),
            j < self.buckets()[b as int].1.len(),
        ensures
            r == self.buckets()[b as int].1[j as int],
    {
        self.slots[b][j]
    }

    /// Files the last atom of `atoms` under its key.
    pub fn index_last(&mut self, atoms: &Vec<SemanticAtom>, f: Facet)
        requires
            old(self).wf(),
            atoms@.len() >= 1,
            old(self).buckets() == buckets_of(atoms@.drop_last(), f),
        ensures
            final(self).wf(),
            final(self).buckets() == buckets_of(atoms@, f),
    {
        let n = atoms.len() - 1;
        let k = match f {
            Facet::Concept => &atoms[n].concept,
            Facet::Agent => &atoms[n].source_agent,
            Facet::Source => &atoms[n].source_type,
        };
        let ghost prev = atoms@.drop_last();
        let ghost old_keys = keys_of(prev, f);
        proof {
            lemma_keys_unique(prev, f);
            assert(atoms@.drop_last() == prev);
            assert(old_keys.len() == old(self).buckets().len());
            assert forall|c: int| 0 <= c < old_keys.len() implies old_keys[c] == old(self).buckets()[c].0 by {
                assert(old(self).buckets()[c] == buckets_of(prev, f)[c]);
            }
        }
        match self.find(k) {
            Some(b) => {
                proof {
                    assert(old_keys[b as int] == k@);
                    assert(old_keys.contains(k@));
                    assert(keys_of(atoms@, f) == old_keys);
                }
                let mut s = self.slots.remove(b);
                s.push(n);
                self.slots.insert(b, s);
                proof {
                    assert forall|c: int| 0 <= c < self.buckets().len() implies self.buckets()[c] == buckets_of(atoms@, f)[c] by {
                        assert(old(self).buckets()[c] == buckets_of(prev, f)[c]);
                        if c != b {
                            assert(self.slots@[c] == old(self).slots@[c]);
                        }
                    }
                    assert(self.buckets() =~= buckets_of(atoms@, f));
                }
            },
            None => {
                proof {
                    assert(!old_keys.contains(k@)) by {
                        if old_keys.contains(k@) {
                            let c = choose|c: int| 0 <= c < old_keys.len() && old_keys[c] == k@;
                            assert(old(self).buckets()[c].0 == k@);
                        }
                    }
                    lemma_absent_key(prev, f, k@);
                    assert(keys_of(atoms@, f) == old_keys.push(k@));
                }
                let mut s: Vec<usize> = Vec::new();
                s.push(n);
                self.keys.push(k.clone());
                self.slots.push(s);
                proof {
                    assert forall|c: int| 0 <= c < self.buckets().len() implies self.buckets()[c] == buckets_of(atoms@, f)[c] by {
                        if c < old_keys.len() {
                            assert(old(self).buckets()[c] == buckets_of(prev, f)[c]);
                            assert(old_keys[c] != k@);
                        } else {
                            assert(s@ =~= Seq::<usize>::empty().push(n));
                        }
                    }
                    assert(self.buckets() =~= buckets_of(atoms@, f));
                }
            },
        }
    }
}

/// The length of the leading run of entries stamped no later than `t`.
pub open spec fn prefix_upto(s: Seq<(u64, usize)>, t: u64) -> nat
    decreases s.len(),
{
    if s.len() == 0 {
        0
    } else if s[0].0 <= t {
        1 + prefix_upto(s.drop_first(), t)
    } else {
        0
    }
}

/// The temporal index of a sequence of atoms: (timestamp, slot) pairs, each atom
/// placed after every entry stamped no later than itself.
pub open spec fn timeline_of(atoms: Seq<SemanticAtom>) -> Seq<(u64, usize)>
    decreases atoms.len(),
{
    if atoms.len() == 0 {
        Seq::empty()
    } else {
        let r = timeline_of(atoms.drop_last());
        let t = atoms.last().timestamp;
        r.insert(prefix_upto(r, t) as int, (t, (atoms.len() - 1) as usize))
    }
}

/// Entries are in non-decreasing timestamp order.
pub open spec fn time_sorted(s: Seq<(u64, usize)>) -> bool {
    forall|i: int, j: int| 0 <= i < j < s.len() ==> s[i].0 <= s[j].0
}

/// The run of entries no later than `t` ends where the entries turn later.
pub proof fn lemma_prefix_exact(s: Seq<(u64, usize)>, t: u64, p: int)
    requires
        0 <= p <= s.len(),
        forall|i: int| 0 <= i < p ==> s[i].0 <= t,
        forall|i: int| p <= i < s.len() ==> s[i].0 > t,
    ensures
        prefix_upto(s, t) == p,
    decreases s.len(),
{
    if s.len() > 0 && p > 0 {
        lemma_prefix_exact(s.drop_first(), t, p - 1);
    }
}

/// In a time-sorted sequence the run no later than `t` is followed only by later
/// entries.
pub proof fn lemma_prefix_sorted(s: Seq<(u64, usize)>, t: u64)
    requires
        time_sorted(s),
    ensures
        prefix_upto(s, t) <= s.len(),
        forall|i: int| 0 <= i < prefix_upto(s, t) ==> s[i].0 <= t,
        forall|i: int| prefix_upto(s, t) <= i < s.len() ==> s[i].0 > t,
    decreases s.len(),
{
    if s.len() > 0 && s[0].0 <= t {
        let d = s.drop_first();
        assert(time_sorted(d)) by {
            assert forall|i: int, j: int| 0 <= i < j < d.len() implies d[i].0 <= d[j].0 by {
                assert(d[i] == s[i + 1] && d[j] == s[j + 1]);
            }
        }
        lemma_prefix_sorted(d, t);
        assert forall|i: int| 0 <= i < prefix_upto(s, t) implies s[i].0 <= t by {
            if i > 0 {
                assert(s[i] == d[i - 1]);
            }
        }
        assert forall|i: int| prefix_upto(s, t) <= i < s.len() implies s[i].0 > t by {
            assert(s[i] == d[i - 1]);
        }
    } else if s.len() > 0 {
        assert forall|i: int| 0 <= i < s.len() implies s[i].0 > t by {
            assert(s[0].0 <= s[i].0);
        }
    }
}

/// The temporal index is sorted, has one entry per atom, and each entry carries
/// the timestamp of the atom in its slot.
pub proof fn lemma_timeline_shape(atoms: Seq<SemanticAtom>)
    requires
        atoms.len() <= usize::MAX,
    ensures
        time_sorted(timeline_of(atoms)),
        timeline_of(atoms).len() == atoms.len(),
        forall|i: int|
            0 <= i < timeline_of(atoms).len() ==> timeline_of(atoms)[i].1 < atoms.len()
                && timeline_of(atoms)[i].0 == atoms[timeline_of(atoms)[i].1 as int].timestamp,
    decreases atoms.len(),
{
    if atoms.len() > 0 {
        let prev = atoms.drop_last();
        lemma_timeline_shape(prev);
        let r = timeline_of(prev);
        let t = atoms.last().timestamp;
        lemma_prefix_sorted(r, t);
        let p = prefix_upto(r, t) as int;
        let s = timeline_of(atoms);
        assert(s == r.insert(p, (t, (atoms.len() - 1) as usize)));
        assert forall|i: int| 0 <= i < s.len() implies s[i].1 < atoms.len() && s[i].0 == atoms[s[i].1 as int].timestamp by {
            if i < p {
                assert(s[i] == r[i]);
                assert(prev[r[i].1 as int] == atoms[r[i].1 as int]);
            } else if i > p {
                assert(s[i] == r[i - 1]);
                assert(prev[r[i - 1].1 as int] == atoms[r[i - 1].1 as int]);
            }
        }
        assert forall|i: int, j: int| 0 <= i < j < s.len() implies s[i].0 <= s[j].0 by {
            if j < p {
                assert(s[i] == r[i] && s[j] == r[j]);
            } else if j == p {
                assert(s[i] == r[i]);
            } else if i > p {
                assert(s[i] == r[i - 1] && s[j] == r[j - 1]);
            } else if i == p {
                assert(s[j] == r[j - 1]);
            } else {
                assert(s[i] == r[i] && s[j] == r[j - 1]);
            }
        }
    }
}

/// The temporal index: (timestamp, slot) pairs in time order.
pub struct TimeIndex {
    entries: Vec<(u64, usize)>,
}

impl TimeIndex {
    pub closed spec fn entries(&self) -> Seq<(u64, usize)> {
        self.entries@
    }

    pub fn new() -> (r: Self)
        ensures
            r.entries() == timeline_of(Seq::empty()),
    {
        TimeIndex { entries: Vec::new() }
    }

    pub fn len(&self) -> (r: usize)
        ensures
            r == self.entries().len(),
    {
        self.entries.len()
    }

    pub fn entry(&self, i: usize) -> (r: (u64, usize))
        requires
            i < self.entries().len(),
        ensures
            r == self.entries()[i as int],
    {
        self.entries[i]
    }

    /// Places the last atom of `atoms` after every entry stamped no later than it,
    /// found by binary search.
    pub fn index_last(&mut self, atoms: &Vec<SemanticAtom>)
        requires
            atoms@.len() >= 1,
            old(self).entries() == timeline_of(atoms@.drop_last()),
        ensures
            final(self).entries() == timeline_of(atoms@),
    {
        let n = atoms.len() - 1;
        let t = atoms[n].timestamp;
        proof {
            lemma_timeline_shape(atoms@.drop_last());
        }
        let mut lo: usize = 0;
        let mut hi: usize = self.entries.len();
        while lo < hi
            invariant
                self.entries@ == timeline_of(atoms@.drop_last()),
                time_sorted(self.entries@),
                lo <= hi <= self.entries@.len(),
                forall|i: int| 0 <= i < lo ==> self.entries@[i].0 <= t,
                forall|i: int| hi <= i < self.entries@.len() ==> self.entries@[i].0 > t,
            decreases hi - lo,
        {
            let mid = lo + (hi - lo) / 2;
            if self.entries[mid].0 <= t {
                lo = mid + 1;
            } else {
                hi = mid;
            }
        }
        proof {
            lemma_prefix_exact(self.entries@, t, lo as int);
        }
        self.entries.insert(lo, (t, n));
    }
}

/// Whether two atom sequences agree on every key and timestamp, slot by slot.
pub open spec fn same_filing(a1: Seq<SemanticAtom>, a2: Seq<SemanticAtom>) -> bool {
    &&& a1.len() == a2.len()
    &&& forall|i: int|
        0 <= i < a1.len() ==> #[trigger] a1[i].concept@ == a2[i].concept@ && a1[i].source_agent@
            == a2[i].source_agent@ && a1[i].source_type@ == a2[i].source_type@ && a1[i].timestamp
            == a2[i].timestamp
}

/// The indices depend on the keys and timestamps of the atoms alone.
pub proof fn lemma_same_filing(a1: Seq<SemanticAtom>, a2: Seq<SemanticAtom>, f: Facet)
    requires
        same_filing(a1, a2),
    ensures
        keys_of(a1, f) == keys_of(a2, f),
        forall|k: Seq<char>| slots_where(a1, f, k) == slots_where(a2, f, k),
        buckets_of(a1, f) == buckets_of(a2, f),
        timeline_of(a1) == timeline_of(a2),
    decreases a1.len(),
{
    if a1.len() > 0 {
        let n = a1.len() - 1;
        assert(a1[n].concept@ == a2[n].concept@);
        assert(same_filing(a1.drop_last(), a2.drop_last())) by {
            assert forall|i: int| 0 <= i < n implies #[trigger] a1.drop_last()[i].concept@ == a2.drop_last()[i].concept@ && a1.drop_last()[i].source_agent@
            == a2.drop_last()[i].source_agent@ && a1.drop_last()[i].source_type@ == a2.drop_last()[i].source_type@ && a1.drop_last()[i].timestamp
            == a2.drop_last()[i].timestamp by {
                assert(a1[i].concept@ == a2[i].concept@);
            }
        }
        lemma_same_filing(a1.drop_last(), a2.drop_last(), f);
        assert(facet_key(a1.last(), f) == facet_key(a2.last(), f));
        assert forall|k: Seq<char>| slots_where(a1, f, k) == slots_where(a2, f, k) by {
            assert(slots_where(a1.drop_last(), f, k) == slots_where(a2.drop_last(), f, k));
        }
        assert(buckets_of(a1, f) =~= buckets_of(a2, f));
    } else {
        assert(buckets_of(a1, f) =~= buckets_of(a2, f));
    }
}

/// A bucket lists exactly the slots filed under its key, each once, in
/// increasing order.
pub proof fn lemma_slots_members(atoms: Seq<SemanticAtom>, f: Facet, k: Seq<char>)
    requires
        atoms.len() <= usize::MAX,
    ensures
        forall|i: int|
            0 <= i < atoms.len() ==> (slots_where(atoms, f, k).contains(i as usize) <==> facet_key(
                atoms[i],
                f,
            ) == k),
        forall|j1: int, j2: int|
            0 <= j1 < j2 < slots_where(atoms, f, k).len() ==> slots_where(atoms, f, k)[j1]
                < slots_where(atoms, f, k)[j2],
    decreases atoms.len(),
{
    lemma_slots_bounded(atoms, f, k);
    if atoms.len() > 0 {
        let prev = atoms.drop_last();
        let n = atoms.len() - 1;
        lemma_slots_members(prev, f, k);
        lemma_slots_bounded(prev, f, k);
        let s = slots_where(atoms, f, k);
        let r = slots_where(prev, f, k);
        assert forall|i: int|
            0 <= i < atoms.len() implies (s.contains(i as usize) <==> facet_key(atoms[i], f) == k) by {
            if i < n {
                assert(prev[i] == atoms[i]);
                if s.contains(i as usize) {
                    let j = choose|j: int| 0 <= j < s.len() && s[j] == i as usize;
                    if j < r.len() {
                        assert(r[j] == s[j]);
                    }
                }
                if r.contains(i as usize) {
                    let j = choose|j: int| 0 <= j < r.len() && r[j] == i as usize;
                    assert(s[j] == r[j]);
                }
            } else {
                if facet_key(atoms[i], f) == k {
                    assert(s[r.len() as int] == i as usize);
                } else if s.contains(i as usize) {
                    let j = choose|j: int| 0 <= j < s.len() && s[j] == i as usize;
                    assert(s[j] == r[j]);
                }
            }
        }
    }
}

/// Every atom's key is among the keys of its mapping.
pub proof fn lemma_keys_cover(atoms: Seq<SemanticAtom>, f: Facet)
    ensures
        forall|i: int| 0 <= i < atoms.len() ==> keys_of(atoms, f).contains(#[trigger] facet_key(atoms[i], f)),
    decreases atoms.len(),
{
    if atoms.len() > 0 {
        let prev = atoms.drop_last();
        lemma_keys_cover(prev, f);
        let ks = keys_of(atoms, f);
        let rs = keys_of(prev, f);
        assert forall|i: int| 0 <= i < atoms.len() implies ks.contains(#[trigger] facet_key(atoms[i], f)) by {
            if i < atoms.len() - 1 {
                assert(prev[i] == atoms[i]);
                let j = choose|j: int| 0 <= j < rs.len() && rs[j] == facet_key(prev[i], f);
                assert(ks[j] == rs[j]);
            } else if !rs.contains(facet_key(atoms[i], f)) {
                assert(ks[rs.len() as int] == facet_key(atoms[i], f));
            }
        }
    }
}

/// Whether some entry of `s` is for slot `i`.
pub open spec fn has_slot(s: Seq<(u64, usize)>, i: int) -> bool {
    exists|t: int| 0 <= t < s.len() && #[trigger] s[t].1 == i
}

/// Every slot has exactly one entry in the temporal index.
pub proof fn lemma_timeline_once(atoms: Seq<SemanticAtom>)
    requires
        atoms.len() <= usize::MAX,
    ensures
        forall|i: int| 0 <= i < atoms.len() ==> #[trigger] has_slot(timeline_of(atoms), i),
        forall|t1: int, t2: int|
            0 <= t1 < t2 < timeline_of(atoms).len() ==> timeline_of(atoms)[t1].1 != timeline_of(
                atoms,
            )[t2].1,
    decreases atoms.len(),
{
    lemma_timeline_shape(atoms);
    if atoms.len() > 0 {
        let prev = atoms.drop_last();
        let n = atoms.len() - 1;
        lemma_timeline_once(prev);
        lemma_timeline_shape(prev);
        let r = timeline_of(prev);
        let p = prefix_upto(r, atoms.last().timestamp) as int;
        lemma_prefix_sorted(r, atoms.last().timestamp);
        let s = timeline_of(atoms);
        assert(s == r.insert(p, (atoms.last().timestamp, n as usize)));
        assert forall|i: int| 0 <= i < atoms.len() implies #[trigger] has_slot(s, i) by {
            if i == n {
                assert(s[p].1 == i);
            } else {
                assert(has_slot(r, i));
                let t = choose|t: int| 0 <= t < r.len() && #[trigger] r[t].1 == i;
                if t < p {
                    assert(s[t] == r[t]);
                } else {
                    assert(s[t + 1] == r[t]);
                }
            }
        }
        assert forall|t1: int, t2: int| 0 <= t1 < t2 < s.len() implies s[t1].1 != s[t2].1 by {
            if t1 == p {
                assert(s[t2] == r[t2 - 1]);
            } else if t2 == p {
                assert(s[t1] == r[t1]);
            } else {
                let u1 = if t1 < p { t1 } else { t1 - 1 };
                let u2 = if t2 < p { t2 } else { t2 - 1 };
                assert(s[t1] == r[u1] && s[t2] == r[u2]);
            }
        }
    }
}

} // verus!
