//! The decisions of a catalog collection run: which directory a worker reads
//! next, and which records one directory's sidecars yield.
use vstd::prelude::*;

use crate::meta_file::{identity_in, MetaFile};

verus! {

/// The directories that a collection run has still to read. Each is claimed
/// by exactly one worker, the last one first.
#[derive(Debug)]
pub struct DirectoryQueue {
    /// The directories not claimed yet.
    pub pending: Vec<String>,
}

impl DirectoryQueue {
    /// A queue of the directories `dirs`.
    pub fn new(dirs: Vec<String>) -> (r: DirectoryQueue)
        ensures
            r.pending == dirs,
    {
        DirectoryQueue { pending: dirs }
    }

    /// Claims the next directory. Along with it comes whether this claim
    /// drained the queue, so that the one worker that drains it can say that
    /// no directory is left to claim.
    pub fn claim(&mut self) -> (r: Option<(String, bool)>)
        ensures
            old(self).pending@.len() == 0 ==> r is None && final(self).pending@.len() == 0,
            old(self).pending@.len() > 0 ==> {
                let before = old(self).pending@;
                &&& r == Some((before.last(), before.len() == 1))
                &&& final(self).pending@ == before.drop_last()
            },
    {
        match self.pending.pop() {
            Some(d) => Some((d, self.pending.len() == 0)),
            None => None,
        }
    }
}

/// The sidecars of one directory that have an identity: each entry is an
/// asset name and its sidecar's text, and each yields a record unless its text
/// names no identity.
pub open spec fn yielding(entries: Seq<(Seq<char>, Seq<char>)>) -> Seq<(Seq<char>, Seq<char>)>
    decreases entries.len(),
{
    if entries.len() == 0 {
        seq![]
    } else {
        let prev = yielding(entries.drop_last());
        if identity_in(entries.last().1) is Some {
            prev.push(entries.last())
        } else {
            prev
        }
    }
}

/// The views of (asset name, sidecar text) pairs.
pub open spec fn entries_of(v: Seq<(String, String)>) -> Seq<(Seq<char>, Seq<char>)> {
    v.map_values(|e: (String, String)| (e.0@, e.1@))
}

/// The records that the sidecars `entries` of `directory` yield, in order:
/// one for each sidecar whose text names an identity.
pub fn records_of_directory(directory: &str, entries: &Vec<(String, String)>) -> (r: Vec<MetaFile>)
    ensures
        r@.len() == yielding(entries_of(entries@)).len(),
        forall|k: int|
            0 <= k < r@.len() ==> {
                let e = #[trigger] yielding(entries_of(entries@))[k];
                &&& r@[k].wf()
                &&& r@[k].directory@ == directory@
                &&& r@[k].base_name@ == e.0
                &&& Some(r@[k].guid@) == identity_in(e.1)
            },
{
    let ghost ev = entries_of(entries@);
    let mut r: Vec<MetaFile> = Vec::new();
    let mut i: usize = 0;
    while i < entries.len()
        invariant
            i <= entries.len(),
            ev == entries_of(entries@),
            r@.len() == yielding(ev.take(i as int)).len(),
            forall|k: int|
                0 <= k < r@.len() ==> {
                    let e = #[trigger] yielding(ev.take(i as int))[k];
                    &&& r@[k].wf()
                    &&& r@[k].directory@ == directory@
                    &&& r@[k].base_name@ == e.0
                    &&& Some(r@[k].guid@) == identity_in(e.1)
                },
        decreases entries.len() - i,
    {
        let ghost prefix = ev.take(i as int + 1);
        assert(prefix.drop_last() =~= ev.take(i as int));
        assert(prefix.last() == ev[i as int]);
        let ghost prev = yielding(ev.take(i as int));
        match MetaFile::from_contents(directory, entries[i].0.as_str(), entries[i].1.as_str()) {
            Some(m) => {
                r.push(m);
                assert forall|k: int| 0 <= k < r@.len() implies {
                    let e = #[trigger] yielding(prefix)[k];
                    &&& r@[k].wf()
                    &&& r@[k].directory@ == directory@
                    &&& r@[k].base_name@ == e.0
                    &&& Some(r@[k].guid@) == identity_in(e.1)
                } by {
                    if k < prev.len() {
                        assert(yielding(prefix)[k] == prev[k]);
                    }
                }
            },
            None => {},
        }
        i = i + 1;
    }
    assert(ev.take(entries.len() as int) =~= ev);
    r
}

} // verus!
