//! Rewriting of identity references inside documents: remapped identities
//! are substituted in place, and references to missing assets are reported so
//! that those assets can be forwarded.
use vstd::prelude::*;

use crate::meta_file::{join_path, join_spec, sidecar_suffix, MetaFile};
use crate::reconcile::{
    content_index, entries_view, is_missing, lemma_missing_from_source, lemma_missing_reported,
    lemma_remap_from_source, lemma_renamed_is_remapped, present_in, renamed_to, Reconciliation,
    RemapEntry,
};
use crate::text::{chars_of, has_marker_at, marker, marker_at};

verus! {

/// The width, in characters, of the identity token that follows the marker
/// inside a document.
pub const TOKEN_WIDTH: usize = 32;

/// The token that stands for identity `id` inside a document: the identity
/// followed by spaces up to the token width. An identity wider than that has
/// no token and is left as it is.
pub open spec fn token_of(id: Seq<char>) -> Seq<char> {
    if id.len() <= TOKEN_WIDTH {
        id + Seq::new((TOKEN_WIDTH - id.len()) as nat, |_k: int| ' ')
    } else {
        id
    }
}

/// A reference starts at position `i` of `t`: the marker, followed by a whole
/// token.
pub open spec fn ref_at(t: Seq<char>, i: int) -> bool {
    marker_at(t, i) && i + marker().len() + TOKEN_WIDTH <= t.len()
}

/// The token of the reference that starts at position `i` of `t`.
pub open spec fn token_at(t: Seq<char>, i: int) -> Seq<char> {
    t.subrange(i + marker().len(), i + marker().len() + TOKEN_WIDTH)
}

/// The target of the first entry at or after `k` of `remap` whose identity has
/// the token `tok`.
pub open spec fn remap_lookup(remap: Seq<(Seq<char>, MetaFile)>, tok: Seq<char>, k: int) -> Option<
    MetaFile,
>
    decreases remap.len() - k,
{
    if k < 0 || k >= remap.len() {
        None
    } else if token_of(remap[k].0) == tok {
        Some(remap[k].1)
    } else {
        remap_lookup(remap, tok, k + 1)
    }
}

/// The first record at or after `k` of `missing` whose identity has the token
/// `tok`.
pub open spec fn missing_lookup(missing: Seq<MetaFile>, tok: Seq<char>, k: int) -> Option<MetaFile>
    decreases missing.len() - k,
{
    if k < 0 || k >= missing.len() {
        None
    } else if token_of(missing[k].guid@) == tok {
        Some(missing[k])
    } else {
        missing_lookup(missing, tok, k + 1)
    }
}

/// What a reference with token `tok` becomes: the token of the destination
/// identity where the identity is remapped and that identity fits the
/// width, else the token unchanged.
pub open spec fn replacement(o: Reconciliation, tok: Seq<char>) -> Seq<char> {
    match remap_lookup(o.remap_view(), tok, 0) {
        Some(d) => if d.guid@.len() <= TOKEN_WIDTH {
            token_of(d.guid@)
        } else {
            tok
        },
        None => tok,
    }
}

/// The missing record that a reference with token `tok` asks to forward: only
/// an identity that is not remapped and is missing.
pub open spec fn forwarded(o: Reconciliation, tok: Seq<char>) -> Option<MetaFile> {
    if remap_lookup(o.remap_view(), tok, 0) is Some {
        None
    } else {
        missing_lookup(o.missing@, tok, 0)
    }
}

/// `t` from position `i` on, with each reference's token replaced. References
/// are found left to right and never overlap.
pub open spec fn rewritten(t: Seq<char>, i: int, o: Reconciliation) -> Seq<char>
    decreases t.len() - i,
{
    if i < 0 || i >= t.len() {
        seq![]
    } else if ref_at(t, i) {
        t.subrange(i, i + marker().len()) + replacement(o, token_at(t, i)) + rewritten(
            t,
            i + marker().len() + TOKEN_WIDTH,
            o,
        )
    } else {
        seq![t[i]] + rewritten(t, i + 1, o)
    }
}

/// The missing records that the references of `t` from position `i` on ask to
/// forward, in order of reference.
pub open spec fn forwards(t: Seq<char>, i: int, o: Reconciliation) -> Seq<MetaFile>
    decreases t.len() - i,
{
    if i < 0 || i >= t.len() {
        seq![]
    } else if ref_at(t, i) {
        let rest = forwards(t, i + marker().len() + TOKEN_WIDTH, o);
        match forwarded(o, token_at(t, i)) {
            Some(m) => seq![m] + rest,
            None => rest,
        }
    } else {
        forwards(t, i + 1, o)
    }
}

/// Whether the characters of `t` from `at` on are the token of `id`.
fn token_matches(t: &Vec<char>, at: usize, id: &String) -> (r: bool)
    requires
        at + TOKEN_WIDTH <= t.len(),
    ensures
        r == (token_of(id@) == t@.subrange(at as int, at + TOKEN_WIDTH)),
{
    let c = chars_of(id.as_str());
    let ghost w = t@.subrange(at as int, at + TOKEN_WIDTH);
    if c.len() > TOKEN_WIDTH {
        return false;
    }
    let ghost tok = token_of(id@);
    assert(tok.len() == TOKEN_WIDTH);
    let mut k: usize = 0;
    while k < TOKEN_WIDTH
        invariant
            c@ == id@,
            c.len() <= TOKEN_WIDTH,
            at + TOKEN_WIDTH <= t.len(),
            w == t@.subrange(at as int, at + TOKEN_WIDTH),
            tok == token_of(id@),
            tok.len() == TOKEN_WIDTH,
            k <= TOKEN_WIDTH,
            forall|m: int| 0 <= m < k ==> tok[m] == #[trigger] w[m],
        decreases TOKEN_WIDTH - k,
    {
        let expected = if k < c.len() {
            c[k]
        } else {
            ' '
        };
        assert(expected == tok[k as int]);
        if t[at + k] != expected {
            assert(w[k as int] != tok[k as int]);
            return false;
        }
        k = k + 1;
    }
    assert(tok =~= w);
    true
}

/// The position in `remap` of the first entry whose identity has the token at
/// position `at` of `t`.
fn find_remap(remap: &Vec<RemapEntry>, t: &Vec<char>, at: usize) -> (r: Option<usize>)
    requires
        at + TOKEN_WIDTH <= t.len(),
    ensures
        match r {
            Some(k) => k < remap.len() && remap_lookup(
                entries_view(remap@),
                t@.subrange(at as int, at + TOKEN_WIDTH),
                0,
            ) == Some(remap@[k as int].target),
            None => remap_lookup(
                entries_view(remap@),
                t@.subrange(at as int, at + TOKEN_WIDTH),
                0,
            ) is None,
        },
{
    let ghost v = entries_view(remap@);
    let ghost tok = t@.subrange(at as int, at + TOKEN_WIDTH);
    let mut k: usize = 0;
    while k < remap.len()
        invariant
            k <= remap.len(),
            at + TOKEN_WIDTH <= t.len(),
            v == entries_view(remap@),
            tok == t@.subrange(at as int, at + TOKEN_WIDTH),
            remap_lookup(v, tok, k as int) == remap_lookup(v, tok, 0),
        decreases remap.len() - k,
    {
        if token_matches(t, at, &remap[k].source) {
            return Some(k);
        }
        k = k + 1;
    }
    None
}

/// The position in `missing` of the first record whose identity has the token
/// at position `at` of `t`.
fn find_missing(missing: &Vec<MetaFile>, t: &Vec<char>, at: usize) -> (r: Option<usize>)
    requires
        at + TOKEN_WIDTH <= t.len(),
    ensures
        match r {
            Some(k) => k < missing.len() && missing_lookup(
                missing@,
                t@.subrange(at as int, at + TOKEN_WIDTH),
                0,
            ) == Some(missing@[k as int]),
            None => missing_lookup(missing@, t@.subrange(at as int, at + TOKEN_WIDTH), 0) is None,
        },
{
    let ghost tok = t@.subrange(at as int, at + TOKEN_WIDTH);
    let mut k: usize = 0;
    while k < missing.len()
        invariant
            k <= missing.len(),
            at + TOKEN_WIDTH <= t.len(),
            tok == t@.subrange(at as int, at + TOKEN_WIDTH),
            missing_lookup(missing@, tok, k as int) == missing_lookup(missing@, tok, 0),
        decreases missing.len() - k,
    {
        if token_matches(t, at, &missing[k].guid) {
            return Some(k);
        }
        k = k + 1;
    }
    None
}

/// The token of identity `id`: the identity followed by spaces up to the
/// token width.
pub fn padded_token(id: &String) -> (r: String)
    requires
        id@.len() <= TOKEN_WIDTH,
    ensures
        r@ == token_of(id@),
{
    let n = chars_of(id.as_str()).len();
    let mut r = id.clone();
    let mut k: usize = n;
    while k < TOKEN_WIDTH
        invariant
            n == id@.len(),
            n <= k <= TOKEN_WIDTH,
            r@ == id@ + Seq::new((k - n) as nat, |_m: int| ' '),
        decreases TOKEN_WIDTH - k,
    {
        proof {
            reveal_strlit(" ");
        }
        assert(" "@ =~= seq![' ']);
        r.append(" ");
        assert(r@ =~= id@ + Seq::new((k + 1 - n) as nat, |_m: int| ' '));
        k = k + 1;
    }
    assert(r@ =~= token_of(id@));
    r
}

/// Rewrites the references in the document text `text`: returns the new text
/// and the missing records that its references ask to forward, in order of
/// reference.
pub fn rewrite_text(text: &str, outcome: &Reconciliation) -> (r: (String, Vec<MetaFile>))
    ensures
        r.0@ == rewritten(text@, 0, *outcome),
        r.1@ == forwards(text@, 0, *outcome),
{
    let t = chars_of(text);
    let n = t.len();
    let mut out = String::new();
    let mut fwd: Vec<MetaFile> = Vec::new();
    let mut start: usize = 0;
    let mut i: usize = 0;
    assert(marker().len() == 6);
    while i < n
        invariant
            t@ == text@,
            n == t.len(),
            start <= i <= n,
            marker().len() == 6,
            out@ + t@.subrange(start as int, i as int) + rewritten(t@, i as int, *outcome)
                == rewritten(t@, 0, *outcome),
            fwd@ + forwards(t@, i as int, *outcome) == forwards(t@, 0, *outcome),
        decreases n - i,
    {
        if n - i >= 6 + TOKEN_WIDTH && has_marker_at(&t, i) {
            let at = i + 6;
            let ghost tok = t@.subrange(at as int, at + TOKEN_WIDTH);
            let ghost before = out@;
            let ghost rest = rewritten(t@, i + 6 + TOKEN_WIDTH, *outcome);
            let ghost frest = forwards(t@, i + 6 + TOKEN_WIDTH, *outcome);
            out.append(text.substring_char(start, at));
            assert(t@.subrange(start as int, at as int) =~= t@.subrange(start as int, i as int)
                + t@.subrange(i as int, at as int));
            let mut forwarded_here = false;
            match find_remap(&outcome.remap, &t, at) {
                Some(k) => {
                    let target = &outcome.remap[k].target;
                    if chars_of(target.guid.as_str()).len() <= TOKEN_WIDTH {
                        let token = padded_token(&target.guid);
                        out.append(token.as_str());
                    } else {
                        out.append(text.substring_char(at, at + TOKEN_WIDTH));
                    }
                },
                None => {
                    out.append(text.substring_char(at, at + TOKEN_WIDTH));
                    match find_missing(&outcome.missing, &t, at) {
                        Some(k) => {
                            fwd.push(outcome.missing[k].clone());
                            forwarded_here = true;
                        },
                        None => {},
                    }
                },
            }
            assert(out@ == before + t@.subrange(start as int, at as int) + replacement(
                *outcome,
                tok,
            ));
            assert(out@ + rest =~= before + t@.subrange(start as int, i as int) + rewritten(
                t@,
                i as int,
                *outcome,
            ));
            i = at + TOKEN_WIDTH;
            start = i;
            assert(t@.subrange(start as int, i as int) =~= Seq::<char>::empty());
            assert(out@ + t@.subrange(start as int, i as int) + rest =~= out@ + rest);
        } else {
            assert(!ref_at(t@, i as int));
            assert(t@.subrange(start as int, i + 1) =~= t@.subrange(start as int, i as int)
                + seq![t@[i as int]]);
            i = i + 1;
        }
    }
    out.append(text.substring_char(start, n));
    assert(out@ =~= out@ + rewritten(t@, n as int, *outcome));
    assert(fwd@ =~= fwd@ + forwards(t@, n as int, *outcome));
    (out, fwd)
}

/// The views of a sequence of strings.
pub open spec fn strings_view(v: Seq<String>) -> Seq<Seq<char>> {
    v.map_values(|s: String| s@)
}

/// Whether `s` ends with `suffix`.
pub open spec fn ends_with(s: Seq<char>, suffix: Seq<char>) -> bool {
    suffix.len() <= s.len() && s.subrange(s.len() - suffix.len(), s.len() as int) == suffix
}

/// Whether an asset of this name is a document, of the kind that carries
/// references: its name ends with one of `suffixes`.
pub open spec fn is_document_name(name: Seq<char>, suffixes: Seq<Seq<char>>) -> bool {
    exists|k: int| 0 <= k < suffixes.len() && ends_with(name, #[trigger] suffixes[k])
}

/// Where the last component of the path `p` begins, looking at its first `j`
/// characters.
pub open spec fn file_name_start(p: Seq<char>, j: int) -> int
    decreases j,
{
    if j <= 0 || j > p.len() {
        0
    } else if p[j - 1] == '/' {
        j
    } else {
        file_name_start(p, j - 1)
    }
}

/// The last component of the path `p`.
pub open spec fn file_name_of(p: Seq<char>) -> Seq<char> {
    p.subrange(file_name_start(p, p.len() as int), p.len() as int)
}

/// The path of the asset that record `m` belongs to.
pub open spec fn asset_path(m: MetaFile) -> Seq<char> {
    join_spec(m.directory@, m.base_name@)
}

/// The paths of a forward of record `m` into the directory `root`: the
/// asset's path, its path under `root`, the sidecar's path and its path under
/// `root`.
pub open spec fn job_for(m: MetaFile, root: Seq<char>) -> (Seq<char>, Seq<char>, Seq<char>, Seq<
    char,
>) {
    (
        asset_path(m),
        join_spec(root, m.base_name@),
        asset_path(m) + sidecar_suffix(),
        join_spec(root, m.base_name@) + sidecar_suffix(),
    )
}

/// The copies that a forward still needs, as (from, to) pairs: the asset
/// unless its target exists, then the sidecar unless its target exists.
pub open spec fn copy_steps(
    j: (Seq<char>, Seq<char>, Seq<char>, Seq<char>),
    asset_exists: bool,
    sidecar_exists: bool,
) -> Seq<(Seq<char>, Seq<char>)> {
    (if asset_exists {
        seq![]
    } else {
        seq![(j.0, j.1)]
    }) + (if sidecar_exists {
        seq![]
    } else {
        seq![(j.2, j.3)]
    })
}

/// The views of a sequence of (from, to) pairs.
pub open spec fn pairs_view(v: Seq<(String, String)>) -> Seq<(Seq<char>, Seq<char>)> {
    v.map_values(|p: (String, String)| (p.0@, p.1@))
}

/// The forward of a missing asset and its sidecar into the export root.
#[derive(Debug)]
pub struct CopyJob {
    /// The asset's path.
    pub asset_from: String,
    /// The asset's path in the export root.
    pub asset_to: String,
    /// The sidecar's path.
    pub sidecar_from: String,
    /// The sidecar's path in the export root.
    pub sidecar_to: String,
}

impl CopyJob {
    /// The four paths, in field order.
    pub open spec fn view(&self) -> (Seq<char>, Seq<char>, Seq<char>, Seq<char>) {
        (self.asset_from@, self.asset_to@, self.sidecar_from@, self.sidecar_to@)
    }

    /// The forward of record `m` into the directory `root`.
    pub fn for_record(m: &MetaFile, root: &String) -> (r: CopyJob)
        ensures
            r.view() == job_for(*m, root@),
    {
        let (asset_from, sidecar_from) = m.get_paths();
        let (asset_to, sidecar_to) = m.get_paths_stem(root);
        CopyJob { asset_from, asset_to, sidecar_from, sidecar_to }
    }

    /// The copies still to make, given whether the asset's and the sidecar's
    /// targets exist already. An existing file is never copied over.
    pub fn steps(&self, asset_exists: bool, sidecar_exists: bool) -> (r: Vec<(String, String)>)
        ensures
            pairs_view(r@) == copy_steps(self.view(), asset_exists, sidecar_exists),
            r@.len() == copy_steps(self.view(), asset_exists, sidecar_exists).len(),
    {
        let mut r: Vec<(String, String)> = Vec::new();
        if !asset_exists {
            r.push((self.asset_from.clone(), self.asset_to.clone()));
        }
        if !sidecar_exists {
            r.push((self.sidecar_from.clone(), self.sidecar_to.clone()));
        }
        assert(pairs_view(r@) =~= copy_steps(self.view(), asset_exists, sidecar_exists));
        r
    }
}

/// The worklist `(pending, queued)` once `x` is offered to it: a path that was
/// ever queued is not queued again.
pub open spec fn enqueue_pair(
    pending: Seq<Seq<char>>,
    queued: Seq<Seq<char>>,
    x: Seq<char>,
) -> (Seq<Seq<char>>, Seq<Seq<char>>) {
    if queued.contains(x) {
        (pending, queued)
    } else {
        (pending.push(x), queued.push(x))
    }
}

/// The worklist once each document among the forwarded records `fwd` is
/// offered to it, in order.
pub open spec fn enqueue_documents(
    pending: Seq<Seq<char>>,
    queued: Seq<Seq<char>>,
    fwd: Seq<MetaFile>,
    suffixes: Seq<Seq<char>>,
) -> (Seq<Seq<char>>, Seq<Seq<char>>)
    decreases fwd.len(),
{
    if fwd.len() == 0 {
        (pending, queued)
    } else {
        let w = enqueue_documents(pending, queued, fwd.drop_last(), suffixes);
        let m = fwd.last();
        if is_document_name(m.base_name@, suffixes) {
            enqueue_pair(w.0, w.1, asset_path(m))
        } else {
            w
        }
    }
}

/// What processing one document produced.
#[derive(Debug)]
pub struct DocumentPlan {
    /// Where the rewritten document goes.
    pub output_path: String,
    /// The rewritten document.
    pub text: String,
    /// The forwards that its references ask for, in order of reference.
    pub copies: Vec<CopyJob>,
}

/// Whether `s` ends with `suffix`.
fn has_suffix(s: &Vec<char>, suffix: &Vec<char>) -> (r: bool)
    ensures
        r == ends_with(s@, suffix@),
{
    if suffix.len() > s.len() {
        return false;
    }
    let off = s.len() - suffix.len();
    let mut k: usize = 0;
    while k < suffix.len()
        invariant
            off + suffix.len() == s.len(),
            k <= suffix.len(),
            forall|m: int| 0 <= m < k ==> #[trigger] suffix@[m] == s@[off + m],
        decreases suffix.len() - k,
    {
        if s[off + k] != suffix[k] {
            assert(s@.subrange(off as int, s.len() as int)[k as int] != suffix@[k as int]);
            return false;
        }
        k = k + 1;
    }
    assert(s@.subrange(off as int, s.len() as int) =~= suffix@);
    true
}

/// The last component of the path `p`.
pub fn file_name(p: &str) -> (r: String)
    ensures
        r@ == file_name_of(p@),
{
    let c = chars_of(p);
    let mut j = c.len();
    while j > 0 && c[j - 1] != '/'
        invariant
            c@ == p@,
            j <= c.len(),
            file_name_start(p@, j as int) == file_name_start(p@, c.len() as int),
        decreases j,
    {
        j = j - 1;
    }
    String::from_str(p.substring_char(j, c.len()))
}

/// The rewriting of a set of documents: a worklist of document paths that
/// never takes the same path twice, the reconciliation outcome that decides
/// each reference, and the export root that receives the output.
#[derive(Debug)]
pub struct Rewriter {
    /// The reconciliation outcome.
    pub outcome: Reconciliation,
    /// The directory that receives rewritten documents and forwarded assets.
    pub export_root: String,
    /// The name endings of assets that are documents themselves.
    pub document_suffixes: Vec<String>,
    /// The documents still to process; the last one comes next.
    pub pending: Vec<String>,
    /// Every document ever queued.
    pub queued: Vec<String>,
}

impl Rewriter {
    /// The documents still to process.
    pub open spec fn pending_view(&self) -> Seq<Seq<char>> {
        strings_view(self.pending@)
    }

    /// Every document ever queued.
    pub open spec fn queued_view(&self) -> Seq<Seq<char>> {
        strings_view(self.queued@)
    }

    /// No document is queued twice, and each pending one was queued.
    pub open spec fn wf(&self) -> bool {
        &&& self.queued_view().no_duplicates()
        &&& forall|k: int|
            0 <= k < self.pending_view().len() ==> self.queued_view().contains(
                #[trigger] self.pending_view()[k],
            )
    }

    /// A rewriter with an empty worklist.
    pub fn new(outcome: Reconciliation, export_root: String, document_suffixes: Vec<String>) -> (r:
        Rewriter)
        ensures
            r.wf(),
            r.outcome == outcome,
            r.export_root == export_root,
            r.document_suffixes == document_suffixes,
            r.pending@.len() == 0,
            r.queued@.len() == 0,
    {
        let r = Rewriter {
            outcome,
            export_root,
            document_suffixes,
            pending: Vec::new(),
            queued: Vec::new(),
        };
        assert(r.queued_view() =~= Seq::<Seq<char>>::empty());
        assert(r.pending_view() =~= Seq::<Seq<char>>::empty());
        r
    }

    /// Offers the document `path` to the worklist; returns whether it was
    /// queued, which it is exactly when it never was before.
    pub fn enqueue(&mut self, path: String) -> (r: bool)
        requires
            old(self).wf(),
        ensures
            final(self).wf(),
            r == !old(self).queued_view().contains(path@),
            (final(self).pending_view(), final(self).queued_view()) == enqueue_pair(
                old(self).pending_view(),
                old(self).queued_view(),
                path@,
            ),
            final(self).outcome == old(self).outcome,
            final(self).export_root == old(self).export_root,
            final(self).document_suffixes == old(self).document_suffixes,
    {
        let ghost q = self.queued_view();
        let mut k: usize = 0;
        while k < self.queued.len()
            invariant
                self.wf(),
                k <= self.queued.len(),
                q == self.queued_view(),
                forall|m: int| 0 <= m < k ==> (#[trigger] q[m]) != path@,
            decreases self.queued.len() - k,
        {
            if self.queued[k] == path {
                assert(q[k as int] == path@);
                return false;
            }
            k = k + 1;
        }
        let ghost p = self.pending_view();
        self.queued.push(path.clone());
        self.pending.push(path);
        assert(self.queued_view() =~= q.push(path@));
        assert(self.pending_view() =~= p.push(path@));
        proof {
            let nq = q.push(path@);
            assert forall|a: int, b: int| 0 <= a < b < nq.len() implies nq[a] != nq[b] by {
                if b == q.len() {
                    assert(nq[a] == q[a]);
                }
            }
            assert forall|m: int| 0 <= m < p.push(path@).len() implies nq.contains(
                #[trigger] p.push(path@)[m],
            ) by {
                if m < p.len() {
                    let w = choose|w: int| 0 <= w < q.len() && q[w] == p[m];
                    assert(nq[w] == q[w]);
                } else {
                    assert(nq[q.len() as int] == path@);
                }
            }
        }
        true
    }

    /// Takes the next document to process, the one queued last.
    pub fn next_document(&mut self) -> (r: Option<String>)
        requires
            old(self).wf(),
        ensures
            final(self).wf(),
            old(self).pending@.len() == 0 ==> r is None && final(self).pending@.len() == 0,
            old(self).pending@.len() > 0 ==> (r matches Some(p) && p@ == old(
                self,
            ).pending_view().last() && final(self).pending_view() == old(
                self,
            ).pending_view().drop_last()),
            final(self).queued == old(self).queued,
            final(self).outcome == old(self).outcome,
            final(self).export_root == old(self).export_root,
            final(self).document_suffixes == old(self).document_suffixes,
    {
        let ghost p = self.pending_view();
        let r = self.pending.pop();
        assert(self.pending_view() =~= if p.len() > 0 {
            p.drop_last()
        } else {
            p
        });
        proof {
            assert forall|k: int| 0 <= k < self.pending_view().len() implies self.queued_view().contains(
                #[trigger] self.pending_view()[k],
            ) by {
                assert(self.pending_view()[k] == p[k]);
            }
        }
        r
    }

    /// Whether an asset of this name is a document.
    fn is_document(&self, name: &String) -> (r: bool)
        ensures
            r == is_document_name(name@, strings_view(self.document_suffixes@)),
    {
        let c = chars_of(name.as_str());
        let ghost sv = strings_view(self.document_suffixes@);
        let mut k: usize = 0;
        while k < self.document_suffixes.len()
            invariant
                c@ == name@,
                k <= self.document_suffixes.len(),
                sv == strings_view(self.document_suffixes@),
                forall|m: int| 0 <= m < k ==> !ends_with(name@, #[trigger] sv[m]),
            decreases self.document_suffixes.len() - k,
        {
            let suffix = chars_of(self.document_suffixes[k].as_str());
            if has_suffix(&c, &suffix) {
                assert(ends_with(name@, sv[k as int]));
                return true;
            }
            k = k + 1;
        }
        false
    }

    /// Processes the document at `path` whose text is `text`: rewrites its
    /// references, lists the forwards that they ask for, and queues each
    /// forwarded asset that is a document itself.
    pub fn process(&mut self, path: &str, text: &str) -> (r: DocumentPlan)
        requires
            old(self).wf(),
        ensures
            final(self).wf(),
            r.text@ == rewritten(text@, 0, old(self).outcome),
            r.output_path@ == join_spec(old(self).export_root@, file_name_of(path@)),
            r.copies@.len() == forwards(text@, 0, old(self).outcome).len(),
            forall|k: int|
                0 <= k < r.copies@.len() ==> (#[trigger] r.copies@[k]).view() == job_for(
                    forwards(text@, 0, old(self).outcome)[k],
                    old(self).export_root@,
                ),
            (final(self).pending_view(), final(self).queued_view()) == enqueue_documents(
                old(self).pending_view(),
                old(self).queued_view(),
                forwards(text@, 0, old(self).outcome),
                strings_view(old(self).document_suffixes@),
            ),
            final(self).outcome == old(self).outcome,
            final(self).export_root == old(self).export_root,
            final(self).document_suffixes == old(self).document_suffixes,
    {
        let (out, fwd) = rewrite_text(text, &self.outcome);
        let name = file_name(path);
        let output_path = join_path(self.export_root.as_str(), name.as_str());
        let mut copies: Vec<CopyJob> = Vec::new();
        let ghost p0 = self.pending_view();
        let ghost q0 = self.queued_view();
        let ghost sv = strings_view(self.document_suffixes@);
        let ghost o = self.outcome;
        let ghost root = self.export_root@;
        let ghost er = self.export_root;
        let ghost ds = self.document_suffixes;
        let mut k: usize = 0;
        while k < fwd.len()
            invariant
                self.wf(),
                k <= fwd.len(),
                copies@.len() == k,
                self.outcome == o,
                self.export_root@ == root,
                self.export_root == er,
                self.document_suffixes == ds,
                sv == strings_view(self.document_suffixes@),
                forall|m: int|
                    0 <= m < k ==> (#[trigger] copies@[m]).view() == job_for(fwd@[m], root),
                (self.pending_view(), self.queued_view()) == enqueue_documents(
                    p0,
                    q0,
                    fwd@.take(k as int),
                    sv,
                ),
            decreases fwd.len() - k,
        {
            let m = &fwd[k];
            copies.push(CopyJob::for_record(m, &self.export_root));
            assert(fwd@.take(k as int + 1).drop_last() =~= fwd@.take(k as int));
            if self.is_document(&m.base_name) {
                let (asset, _) = m.get_paths();
                self.enqueue(asset);
            }
            k = k + 1;
        }
        assert(fwd@.take(fwd.len() as int) =~= fwd@);
        DocumentPlan { output_path, text: out, copies }
    }
}

/// The scan from position `k + j` of `t` sees only what lies from `k` on.
proof fn lemma_scan_suffix(t: Seq<char>, k: int, j: int, o: Reconciliation)
    requires
        0 <= k <= t.len(),
        0 <= j,
    ensures
        rewritten(t, k + j, o) == rewritten(t.subrange(k, t.len() as int), j, o),
        forwards(t, k + j, o) == forwards(t.subrange(k, t.len() as int), j, o),
    decreases t.len() - k - j,
{
    let u = t.subrange(k, t.len() as int);
    assert(marker().len() == 6);
    if k + j < t.len() {
        if k + j + 6 <= t.len() {
            assert(t.subrange(k + j, k + j + 6) =~= u.subrange(j, j + 6));
        }
        assert(ref_at(t, k + j) == ref_at(u, j));
        if ref_at(t, k + j) {
            assert(token_at(t, k + j) =~= token_at(u, j));
            lemma_scan_suffix(t, k, j + 6 + TOKEN_WIDTH, o);
        } else {
            assert(t[k + j] == u[j]);
            lemma_scan_suffix(t, k, j + 1, o);
        }
    }
}

/// A document that opens with a reference to `id` is rewritten as that
/// reference's replacement followed by the rest rewritten, and asks for that
/// reference's forward before those of the rest.
pub proof fn lemma_leading_reference(id: Seq<char>, rest: Seq<char>, o: Reconciliation)
    requires
        id.len() <= TOKEN_WIDTH,
    ensures
        rewritten(marker() + token_of(id) + rest, 0, o) == marker() + replacement(o, token_of(id))
            + rewritten(rest, 0, o),
        forwards(marker() + token_of(id) + rest, 0, o) == match forwarded(o, token_of(id)) {
            Some(m) => seq![m],
            None => Seq::<MetaFile>::empty(),
        } + forwards(rest, 0, o),
{
    let tok = token_of(id);
    let t = marker() + tok + rest;
    assert(tok.len() == TOKEN_WIDTH);
    assert(t.subrange(0, 6) =~= marker());
    assert(ref_at(t, 0));
    assert(token_at(t, 0) =~= tok);
    lemma_scan_suffix(t, 6 + TOKEN_WIDTH, 0, o);
    assert(t.subrange(6 + TOKEN_WIDTH, t.len() as int) =~= rest);
    assert(forwards(rest, 0, o) =~= Seq::<MetaFile>::empty() + forwards(rest, 0, o));
}

/// No entry at or after `m` of a table without the token `tok` has it.
proof fn lemma_remap_lookup_none(remap: Seq<(Seq<char>, MetaFile)>, tok: Seq<char>, m: int)
    requires
        forall|k: int| 0 <= k < remap.len() ==> token_of((#[trigger] remap[k]).0) != tok,
    ensures
        remap_lookup(remap, tok, m) is None,
    decreases remap.len() - m,
{
    if 0 <= m < remap.len() {
        lemma_remap_lookup_none(remap, tok, m + 1);
    }
}

/// A table with the token `tok` at `k` yields one of its targets for it.
proof fn lemma_remap_lookup_some(remap: Seq<(Seq<char>, MetaFile)>, tok: Seq<char>, m: int, k: int)
    requires
        0 <= m <= k < remap.len(),
        token_of(remap[k].0) == tok,
    ensures
        remap_lookup(remap, tok, m) matches Some(d) && exists|w: int|
            0 <= w < remap.len() && (#[trigger] remap[w]).1 == d,
    decreases k - m,
{
    if token_of(remap[m].0) != tok {
        lemma_remap_lookup_some(remap, tok, m + 1, k);
    }
}

/// Where every record with the token `tok` is `x`, and one at or after `m`
/// has it, the lookup yields `x`.
proof fn lemma_missing_lookup_only(missing: Seq<MetaFile>, tok: Seq<char>, x: MetaFile, m: int, k: int)
    requires
        0 <= m <= k < missing.len(),
        token_of(missing[k].guid@) == tok,
        forall|w: int|
            0 <= w < missing.len() && token_of((#[trigger] missing[w]).guid@) == tok ==> missing[w]
                == x,
    ensures
        missing_lookup(missing, tok, m) == Some(x),
    decreases k - m,
{
    if token_of(missing[m].guid@) != tok {
        lemma_missing_lookup_only(missing, tok, x, m + 1, k);
    }
}

/// A reference to a source identity that the destination holds under another
/// identity is replaced by the token of a destination record's identity, in
/// place, and forwards nothing.
pub proof fn lemma_remapped_reference(
    src: Seq<MetaFile>,
    dst: Seq<MetaFile>,
    o: Reconciliation,
    i: int,
    rest: Seq<char>,
)
    requires
        o.is_outcome_of(src, dst),
        0 <= i < src.len(),
        !present_in(src[i], dst),
        content_index(src[i], dst, 0) is Some,
        src[i].guid@.len() <= TOKEN_WIDTH,
    ensures
        remap_lookup(o.remap_view(), token_of(src[i].guid@), 0) matches Some(d) && dst.contains(d),
        rewritten(marker() + token_of(src[i].guid@) + rest, 0, o) == marker() + replacement(
            o,
            token_of(src[i].guid@),
        ) + rewritten(rest, 0, o),
        forwards(marker() + token_of(src[i].guid@) + rest, 0, o) == forwards(rest, 0, o),
{
    let tok = token_of(src[i].guid@);
    let remap = o.remap_view();
    lemma_renamed_is_remapped(src, dst, i);
    let k = choose|k: int| 0 <= k < remap.len() && (#[trigger] remap[k]).0 == src[i].guid@;
    lemma_remap_lookup_some(remap, tok, 0, k);
    lemma_remap_from_source(src, dst);
    let w = choose|w: int| 0 <= w < remap.len() && (#[trigger] remap[w]).1 == remap_lookup(
        remap,
        tok,
        0,
    )->0;
    assert(dst.contains(remap[w].1));
    lemma_leading_reference(src[i].guid@, rest, o);
    assert(forwards(rest, 0, o) =~= Seq::<MetaFile>::empty() + forwards(rest, 0, o));
}

/// A reference to a source identity that the destination lacks altogether is
/// left as it is and forwards that source record, where the source catalog
/// gives each identity's token to one record only.
pub proof fn lemma_missing_reference(
    src: Seq<MetaFile>,
    dst: Seq<MetaFile>,
    o: Reconciliation,
    i: int,
    rest: Seq<char>,
)
    requires
        o.is_outcome_of(src, dst),
        0 <= i < src.len(),
        is_missing(src[i], dst),
        src[i].guid@.len() <= TOKEN_WIDTH,
        forall|j: int, k: int|
            0 <= j < src.len() && 0 <= k < src.len() && token_of(#[trigger] src[j].guid@)
                == token_of(#[trigger] src[k].guid@) ==> j == k,
    ensures
        rewritten(marker() + token_of(src[i].guid@) + rest, 0, o) == marker() + token_of(
            src[i].guid@,
        ) + rewritten(rest, 0, o),
        forwards(marker() + token_of(src[i].guid@) + rest, 0, o) == seq![src[i]] + forwards(
            rest,
            0,
            o,
        ),
{
    let tok = token_of(src[i].guid@);
    let remap = o.remap_view();
    let missing = o.missing@;
    lemma_remap_from_source(src, dst);
    assert forall|k: int| 0 <= k < remap.len() implies token_of((#[trigger] remap[k]).0) != tok by {
        let j = choose|j: int|
            0 <= j < src.len() && (#[trigger] remap[k]).0 == src[j].guid@ && renamed_to(src[j], dst)
                == Some(remap[k].1);
        assert(renamed_to(src[i], dst) is None);
        assert(j != i);
    }
    lemma_remap_lookup_none(remap, tok, 0);
    lemma_missing_reported(src, dst, i);
    lemma_missing_from_source(src, dst);
    let k = choose|k: int| 0 <= k < missing.len() && missing[k] == src[i];
    assert forall|w: int|
        0 <= w < missing.len() && token_of((#[trigger] missing[w]).guid@) == tok implies missing[w]
        == src[i] by {
        assert(src.contains(missing[w]));
        let j = choose|j: int| 0 <= j < src.len() && src[j] == missing[w];
        assert(token_of(src[j].guid@) == token_of(src[i].guid@));
    }
    lemma_missing_lookup_only(missing, tok, src[i], 0, k);
    lemma_leading_reference(src[i].guid@, rest, o);
}

/// Offering the same document twice queues it once: the second offer changes
/// nothing, the document is queued after the first, and a worklist without
/// duplicates keeps none.
pub proof fn lemma_enqueue_once(pending: Seq<Seq<char>>, queued: Seq<Seq<char>>, x: Seq<char>)
    ensures
        enqueue_pair(enqueue_pair(pending, queued, x).0, enqueue_pair(pending, queued, x).1, x)
            == enqueue_pair(pending, queued, x),
        enqueue_pair(pending, queued, x).1.contains(x),
        queued.no_duplicates() ==> enqueue_pair(pending, queued, x).1.no_duplicates(),
{
    let w = enqueue_pair(pending, queued, x);
    if !queued.contains(x) {
        assert(w.1[queued.len() as int] == x);
        if queued.no_duplicates() {
            assert forall|a: int, b: int| 0 <= a < b < w.1.len() implies w.1[a] != w.1[b] by {
                if b == queued.len() {
                    assert(w.1[a] == queued[a]);
                }
            }
        }
    }
}

/// A forward never copies over an existing file: once both targets exist, as
/// after an earlier run, nothing is copied, and each copy made goes to a target
/// that did not exist.
pub proof fn lemma_existing_targets_are_kept(
    j: (Seq<char>, Seq<char>, Seq<char>, Seq<char>),
    asset_exists: bool,
    sidecar_exists: bool,
)
    ensures
        copy_steps(j, true, true) == Seq::<(Seq<char>, Seq<char>)>::empty(),
        forall|k: int|
            0 <= k < copy_steps(j, asset_exists, sidecar_exists).len() ==> {
                let step = #[trigger] copy_steps(j, asset_exists, sidecar_exists)[k];
                (step == (j.0, j.1) && !asset_exists) || (step == (j.2, j.3) && !sidecar_exists)
            },
{
    assert(copy_steps(j, true, true) =~= Seq::<(Seq<char>, Seq<char>)>::empty());
}

} // verus!
