//! Reconciliation of a source catalog against a destination catalog: which
//! source records the destination already holds, which it holds under another
//! identity, and which it lacks.
use vstd::prelude::*;

use crate::meta_file::MetaFile;

verus! {

/// `s` and `d` name the same identity: equal fingerprints, confirmed by
/// comparing the identities themselves.
pub open spec fn identity_match(s: MetaFile, d: MetaFile) -> bool {
    s.guid_hash == d.guid_hash && s.guid@ == d.guid@
}

/// `s` and `d` belong to assets of the same name: equal fingerprints,
/// confirmed by comparing the names themselves.
pub open spec fn content_match(s: MetaFile, d: MetaFile) -> bool {
    s.base_hash == d.base_hash && s.base_name@ == d.base_name@
}

/// Some record of `dst` names the identity of `s`.
pub open spec fn present_in(s: MetaFile, dst: Seq<MetaFile>) -> bool {
    exists|j: int| 0 <= j < dst.len() && #[trigger] identity_match(s, dst[j])
}

/// The first position at or after `i` whose record of `dst` belongs to an
/// asset of the same name as `s`.
pub open spec fn content_index(s: MetaFile, dst: Seq<MetaFile>, i: int) -> Option<int>
    decreases dst.len() - i,
{
    if i < 0 || i >= dst.len() {
        None
    } else if content_match(s, dst[i]) {
        Some(i)
    } else {
        content_index(s, dst, i + 1)
    }
}

/// How a source record stands against a destination catalog.
#[derive(Debug, Clone, Copy, PartialEq, Eq, Structural)]
pub enum Placement {
    /// The destination holds the same identity.
    Present,
    /// The destination lacks the identity, but its record at this position
    /// belongs to an asset of the same name.
    Renamed(usize),
    /// The destination holds neither the identity nor the asset name.
    Missing,
}

/// The placement of `s` in `dst`.
pub open spec fn placement_of(s: MetaFile, dst: Seq<MetaFile>) -> Placement {
    if present_in(s, dst) {
        Placement::Present
    } else {
        match content_index(s, dst, 0) {
            Some(j) => Placement::Renamed(j as usize),
            None => Placement::Missing,
        }
    }
}

/// Whether `s` is missing from `dst`.
pub open spec fn is_missing(s: MetaFile, dst: Seq<MetaFile>) -> bool {
    placement_of(s, dst) == Placement::Missing
}

/// The destination record that `s` is remapped to, where it is renamed.
pub open spec fn renamed_to(s: MetaFile, dst: Seq<MetaFile>) -> Option<MetaFile> {
    if present_in(s, dst) {
        None
    } else {
        match content_index(s, dst, 0) {
            Some(j) => Some(dst[j]),
            None => None,
        }
    }
}

/// The source records missing from `dst`, in source order.
pub open spec fn missing_of(src: Seq<MetaFile>, dst: Seq<MetaFile>) -> Seq<MetaFile>
    decreases src.len(),
{
    if src.len() == 0 {
        seq![]
    } else {
        let prev = missing_of(src.drop_last(), dst);
        if is_missing(src.last(), dst) {
            prev.push(src.last())
        } else {
            prev
        }
    }
}

/// Whether `k` is a key of the remap table `remap`.
pub open spec fn has_key(remap: Seq<(Seq<char>, MetaFile)>, k: Seq<char>) -> bool {
    exists|i: int| 0 <= i < remap.len() && (#[trigger] remap[i]).0 == k
}

/// The remap table: for each renamed source record, in source order,
/// its identity and the destination record it is remapped to. Where two
/// source records share an identity, the first one's entry stands.
pub open spec fn remap_of(src: Seq<MetaFile>, dst: Seq<MetaFile>) -> Seq<(Seq<char>, MetaFile)>
    decreases src.len(),
{
    if src.len() == 0 {
        seq![]
    } else {
        let prev = remap_of(src.drop_last(), dst);
        let s = src.last();
        match renamed_to(s, dst) {
            Some(d) => if has_key(prev, s.guid@) {
                prev
            } else {
                prev.push((s.guid@, d))
            },
            None => prev,
        }
    }
}

/// One entry of the remap table.
#[derive(Debug)]
pub struct RemapEntry {
    /// The identity in the source tree.
    pub source: String,
    /// The destination record it is remapped to.
    pub target: MetaFile,
}

impl Clone for RemapEntry {
    fn clone(&self) -> (r: Self)
        ensures
            r == *self,
    {
        RemapEntry { source: self.source.clone(), target: self.target.clone() }
    }
}

/// The outcome of reconciling a source catalog against a destination catalog.
#[derive(Debug)]
pub struct Reconciliation {
    /// The source records that the destination lacks, in source order.
    pub missing: Vec<MetaFile>,
    /// The remap table from source identities to destination records.
    pub remap: Vec<RemapEntry>,
}

/// The entries of a remap table as (identity, record) pairs.
pub open spec fn entries_view(v: Seq<RemapEntry>) -> Seq<(Seq<char>, MetaFile)> {
    v.map_values(|e: RemapEntry| (e.source@, e.target))
}

impl Reconciliation {
    /// The remap table as (identity, record) pairs.
    pub open spec fn remap_view(&self) -> Seq<(Seq<char>, MetaFile)> {
        entries_view(self.remap@)
    }

    /// The outcome of reconciling `src` against `dst`.
    pub open spec fn is_outcome_of(&self, src: Seq<MetaFile>, dst: Seq<MetaFile>) -> bool {
        &&& self.missing@ == missing_of(src, dst)
        &&& self.remap_view() == remap_of(src, dst)
    }
}

/// Where `s` stands against the destination catalog `dst`.
pub fn classify(s: &MetaFile, dst: &Vec<MetaFile>) -> (r: Placement)
    ensures
        r == placement_of(*s, dst@),
        r matches Placement::Renamed(j) ==> j < dst.len() && content_index(*s, dst@, 0) == Some(
            j as int,
        ),
{
    let mut first: Option<usize> = None;
    let mut j: usize = 0;
    while j < dst.len()
        invariant
            j <= dst.len(),
            forall|k: int| 0 <= k < j ==> !identity_match(*s, #[trigger] dst@[k]),
            match first {
                None => content_index(*s, dst@, j as int) == content_index(*s, dst@, 0),
                Some(f) => f < j && content_index(*s, dst@, 0) == Some(f as int),
            },
        decreases dst.len() - j,
    {
        let d = &dst[j];
        if s.guid_hash == d.guid_hash && s.guid == d.guid {
            assert(identity_match(*s, dst@[j as int]));
            return Placement::Present;
        }
        if first.is_none() && s.base_hash == d.base_hash && s.base_name == d.base_name {
            first = Some(j);
        }
        j = j + 1;
    }
    match first {
        Some(f) => Placement::Renamed(f),
        None => Placement::Missing,
    }
}

/// Whether `k` is a key of the remap table `remap`.
fn find_key(remap: &Vec<RemapEntry>, k: &String) -> (r: bool)
    ensures
        r == has_key(entries_view(remap@), k@),
{
    let ghost view = entries_view(remap@);
    let mut i: usize = 0;
    while i < remap.len()
        invariant
            i <= remap.len(),
            view == entries_view(remap@),
            forall|m: int| 0 <= m < i ==> (#[trigger] view[m]).0 != k@,
        decreases remap.len() - i,
    {
        if remap[i].source == *k {
            assert(view[i as int].0 == k@);
            return true;
        }
        i = i + 1;
    }
    false
}

/// Reconciles the catalog `source` against the catalog `destination`.
pub fn reconcile(source: &Vec<MetaFile>, destination: &Vec<MetaFile>) -> (r: Reconciliation)
    ensures
        r.is_outcome_of(source@, destination@),
{
    let mut missing: Vec<MetaFile> = Vec::new();
    let mut remap: Vec<RemapEntry> = Vec::new();
    let mut i: usize = 0;
    while i < source.len()
        invariant
            i <= source.len(),
            missing@ == missing_of(source@.take(i as int), destination@),
            entries_view(remap@) == remap_of(source@.take(i as int), destination@),
        decreases source.len() - i,
    {
        let s = &source[i];
        let ghost prefix = source@.take(i as int + 1);
        assert(prefix.drop_last() =~= source@.take(i as int));
        assert(prefix.last() == *s);
        match classify(s, destination) {
            Placement::Present => {},
            Placement::Renamed(j) => {
                if !find_key(&remap, &s.guid) {
                    let ghost before = entries_view(remap@);
                    remap.push(RemapEntry { source: s.guid.clone(), target: destination[j].clone() });
                    assert(entries_view(remap@) =~= before.push((s.guid@, destination@[j as int])));
                }
            },
            Placement::Missing => {
                missing.push(s.clone());
            },
        }
        i = i + 1;
    }
    assert(source@.take(source.len() as int) =~= source@);
    Reconciliation { missing, remap }
}

/// Fingerprints only speed up the comparison: a match by identity always means
/// equal identities, and for records as sidecar text produces them equal
/// identities always match.
pub proof fn lemma_identity_match_is_equality(a: MetaFile, b: MetaFile)
    ensures
        identity_match(a, b) ==> a.guid@ == b.guid@,
        a.wf() && b.wf() ==> (identity_match(a, b) <==> a.guid@ == b.guid@),
{
}

/// A catalog whose every record the destination holds has nothing missing and
/// nothing to remap.
pub proof fn lemma_all_present(src: Seq<MetaFile>, dst: Seq<MetaFile>)
    requires
        forall|i: int| 0 <= i < src.len() ==> present_in(#[trigger] src[i], dst),
    ensures
        missing_of(src, dst) == Seq::<MetaFile>::empty(),
        remap_of(src, dst) == Seq::<(Seq<char>, MetaFile)>::empty(),
    decreases src.len(),
{
    if src.len() > 0 {
        let init = src.drop_last();
        assert forall|i: int| 0 <= i < init.len() implies present_in(#[trigger] init[i], dst) by {
            assert(init[i] == src[i]);
        }
        lemma_all_present(init, dst);
        assert(present_in(src[src.len() - 1], dst));
    }
}

/// Reconciling a catalog against itself finds nothing missing and nothing to
/// remap: every record matches itself by identity.
pub proof fn lemma_reconcile_with_itself(a: Seq<MetaFile>)
    ensures
        missing_of(a, a) == Seq::<MetaFile>::empty(),
        remap_of(a, a) == Seq::<(Seq<char>, MetaFile)>::empty(),
{
    assert forall|i: int| 0 <= i < a.len() implies present_in(#[trigger] a[i], a) by {
        assert(identity_match(a[i], a[i]));
    }
    lemma_all_present(a, a);
}

/// Reconciling a catalog against an empty one finds every record missing, in
/// order, and nothing to remap.
pub proof fn lemma_reconcile_with_empty(a: Seq<MetaFile>)
    ensures
        missing_of(a, Seq::<MetaFile>::empty()) == a,
        remap_of(a, Seq::<MetaFile>::empty()) == Seq::<(Seq<char>, MetaFile)>::empty(),
    decreases a.len(),
{
    let e = Seq::<MetaFile>::empty();
    if a.len() > 0 {
        lemma_reconcile_with_empty(a.drop_last());
        assert(!present_in(a.last(), e));
        assert(is_missing(a.last(), e));
        assert(a.drop_last().push(a.last()) =~= a);
    }
}

/// Every record reported missing is missing from the destination.
pub proof fn lemma_missing_are_missing(src: Seq<MetaFile>, dst: Seq<MetaFile>)
    ensures
        forall|k: int|
            0 <= k < missing_of(src, dst).len() ==> is_missing(
                #[trigger] missing_of(src, dst)[k],
                dst,
            ),
    decreases src.len(),
{
    if src.len() > 0 {
        lemma_missing_are_missing(src.drop_last(), dst);
        let prev = missing_of(src.drop_last(), dst);
        let m = missing_of(src, dst);
        assert forall|k: int| 0 <= k < m.len() implies is_missing(#[trigger] m[k], dst) by {
            if k < prev.len() {
                assert(m[k] == prev[k]);
            }
        }
    }
}

/// The remap table names each source identity at most once.
pub proof fn lemma_remap_keys_unique(src: Seq<MetaFile>, dst: Seq<MetaFile>)
    ensures
        forall|i: int, j: int|
            0 <= i < j < remap_of(src, dst).len() ==> (#[trigger] remap_of(src, dst)[i]).0
                != (#[trigger] remap_of(src, dst)[j]).0,
    decreases src.len(),
{
    if src.len() > 0 {
        lemma_remap_keys_unique(src.drop_last(), dst);
        let prev = remap_of(src.drop_last(), dst);
        let r = remap_of(src, dst);
        assert forall|i: int, j: int| 0 <= i < j < r.len() implies (#[trigger] r[i]).0 != (
        #[trigger] r[j]).0 by {
            if j == prev.len() {
                assert(r[i] == prev[i]);
            } else {
                assert(r[i] == prev[i] && r[j] == prev[j]);
            }
        }
    }
}

/// A source record that the destination lacks by identity but holds by asset
/// name has its identity in the remap table and is not reported missing.
pub proof fn lemma_renamed_is_remapped(src: Seq<MetaFile>, dst: Seq<MetaFile>, i: int)
    requires
        0 <= i < src.len(),
        !present_in(src[i], dst),
        content_index(src[i], dst, 0) is Some,
    ensures
        has_key(remap_of(src, dst), src[i].guid@),
        !missing_of(src, dst).contains(src[i]),
    decreases src.len(),
{
    let s = src[i];
    let prev = remap_of(src.drop_last(), dst);
    let r = remap_of(src, dst);
    if i < src.len() - 1 {
        assert(src.drop_last()[i] == s);
        lemma_renamed_is_remapped(src.drop_last(), dst, i);
        let k = choose|k: int| 0 <= k < prev.len() && (#[trigger] prev[k]).0 == s.guid@;
        assert(r[k] == prev[k]);
    } else if !has_key(prev, s.guid@) {
        assert(r[prev.len() as int].0 == s.guid@);
    }
    lemma_missing_are_missing(src, dst);
    if missing_of(src, dst).contains(s) {
        let k = choose|k: int| 0 <= k < missing_of(src, dst).len() && missing_of(src, dst)[k] == s;
        assert(is_missing(missing_of(src, dst)[k], dst));
    }
}

/// A renaming's position lies in the destination catalog.
pub proof fn lemma_content_index_bounds(s: MetaFile, dst: Seq<MetaFile>, m: int)
    ensures
        content_index(s, dst, m) matches Some(j) ==> 0 <= m <= j < dst.len(),
    decreases dst.len() - m,
{
    if 0 <= m < dst.len() && !content_match(s, dst[m]) {
        lemma_content_index_bounds(s, dst, m + 1);
    }
}

/// Each record reported missing is a record of the source catalog.
pub proof fn lemma_missing_from_source(src: Seq<MetaFile>, dst: Seq<MetaFile>)
    ensures
        forall|k: int|
            0 <= k < missing_of(src, dst).len() ==> src.contains(
                #[trigger] missing_of(src, dst)[k],
            ),
    decreases src.len(),
{
    if src.len() > 0 {
        let init = src.drop_last();
        lemma_missing_from_source(init, dst);
        let prev = missing_of(init, dst);
        let m = missing_of(src, dst);
        assert forall|k: int| 0 <= k < m.len() implies src.contains(#[trigger] m[k]) by {
            if k < prev.len() {
                assert(m[k] == prev[k]);
                let j = choose|j: int| 0 <= j < init.len() && init[j] == prev[k];
                assert(src[j] == init[j]);
            } else {
                assert(src[src.len() - 1] == m[k]);
            }
        }
    }
}

/// Each source record that is missing is reported missing.
pub proof fn lemma_missing_reported(src: Seq<MetaFile>, dst: Seq<MetaFile>, i: int)
    requires
        0 <= i < src.len(),
        is_missing(src[i], dst),
    ensures
        missing_of(src, dst).contains(src[i]),
    decreases src.len(),
{
    let init = src.drop_last();
    let prev = missing_of(init, dst);
    let m = missing_of(src, dst);
    if i < src.len() - 1 {
        assert(init[i] == src[i]);
        lemma_missing_reported(init, dst, i);
        let k = choose|k: int| 0 <= k < prev.len() && prev[k] == src[i];
        assert(m[k] == prev[k]);
    } else {
        assert(m[prev.len() as int] == src[i]);
    }
}

/// Each entry of the remap table comes from a renamed source record,
/// and its target is a record of the destination catalog.
pub proof fn lemma_remap_from_source(src: Seq<MetaFile>, dst: Seq<MetaFile>)
    ensures
        forall|k: int|
            0 <= k < remap_of(src, dst).len() ==> exists|j: int|
                0 <= j < src.len() && (#[trigger] remap_of(src, dst)[k]).0 == src[j].guid@
                    && renamed_to(src[j], dst) == Some(remap_of(src, dst)[k].1),
        forall|k: int|
            0 <= k < remap_of(src, dst).len() ==> dst.contains(
                (#[trigger] remap_of(src, dst)[k]).1,
            ),
    decreases src.len(),
{
    if src.len() > 0 {
        let init = src.drop_last();
        lemma_remap_from_source(init, dst);
        let prev = remap_of(init, dst);
        let r = remap_of(src, dst);
        let s = src.last();
        lemma_content_index_bounds(s, dst, 0);
        assert forall|k: int| 0 <= k < r.len() implies exists|j: int|
            0 <= j < src.len() && (#[trigger] r[k]).0 == src[j].guid@ && renamed_to(src[j], dst)
                == Some(r[k].1) by {
            if k < prev.len() {
                assert(r[k] == prev[k]);
                let j = choose|j: int|
                    0 <= j < init.len() && (#[trigger] prev[k]).0 == init[j].guid@ && renamed_to(
                        init[j],
                        dst,
                    ) == Some(prev[k].1);
                assert(src[j] == init[j]);
            } else {
                assert(src[src.len() - 1] == s);
            }
        }
        assert forall|k: int| 0 <= k < r.len() implies dst.contains((#[trigger] r[k]).1) by {
            if k < prev.len() {
                assert(r[k] == prev[k]);
            } else {
                let j = content_index(s, dst, 0)->0;
                assert(dst[j] == r[k].1);
            }
        }
    }
}

} // verus!
