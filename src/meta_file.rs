//! The sidecar record: one metadata file that names an asset by a stable identity.
use std::collections::hash_map::DefaultHasher;
use std::hash::Hasher;
use vstd::prelude::*;
use vstd::std_specs::hash::DefaultHasherAdditionalSpecFns;
use vstd::utf8::encode_utf8;

use crate::text::{chars_of, marker, find_marker, line_end, next_line_end, next_marker, trim, trimmed_bounds};

verus! {

/// The fixed-width fingerprint of a string: std's default hasher fed the
/// string's UTF-8 bytes in one write.
pub open spec fn fingerprint_spec(s: Seq<char>) -> u64 {
    DefaultHasher::spec_finish(seq![encode_utf8(s)])
}

/// Hashes a string into its fixed-width fingerprint.
pub fn fingerprint(s: &str) -> (r: u64)
    ensures
        r == fingerprint_spec(s@),
{
    let mut hasher = DefaultHasher::new();
    hasher.write(s.as_bytes());
    let r = hasher.finish();
    proof {
        assert(hasher@ =~= seq![encode_utf8(s@)]);
    }
    r
}

/// The suffix that marks a file as a sidecar.
pub open spec fn sidecar_suffix() -> Seq<char> {
    seq!['.', 'm', 'e', 't', 'a']
}

/// The identity that a sidecar's text names: the text after the first marker,
/// up to the end of its line, without surrounding whitespace. A text without
/// the marker, or with only whitespace after it, names none.
pub open spec fn identity_in(t: Seq<char>) -> Option<Seq<char>> {
    match find_marker(t, 0) {
        None => None,
        Some(p) => {
            let start = p + marker().len();
            let v = trim(t.subrange(start, line_end(t, start)));
            if v.len() == 0 {
                None
            } else {
                Some(v)
            }
        },
    }
}

/// The asset name that a sidecar's file name belongs to: the file name without
/// its `.meta` extension. A file name that does not end in that extension, or
/// that is nothing else, is no sidecar.
pub open spec fn sidecar_stem_of(name: Seq<char>) -> Option<Seq<char>> {
    let n = name.len() as int;
    if n > sidecar_suffix().len() && name.subrange(n - sidecar_suffix().len(), n)
        == sidecar_suffix() {
        Some(name.subrange(0, n - sidecar_suffix().len()))
    } else {
        None
    }
}

/// `name` placed inside the directory `dir`, with `/` between them: an
/// absolute `name` replaces `dir`, and an empty `dir` adds nothing.
pub open spec fn join_spec(dir: Seq<char>, name: Seq<char>) -> Seq<char> {
    if (name.len() > 0 && name[0] == '/') || dir.len() == 0 {
        name
    } else if dir.last() == '/' {
        dir + name
    } else {
        dir + seq!['/'] + name
    }
}

/// Reads the identity out of a sidecar's text.
pub fn parse_identity(contents: &str) -> (r: Option<String>)
    ensures
        match r {
            Some(id) => identity_in(contents@) == Some(id@),
            None => identity_in(contents@) is None,
        },
{
    let t = chars_of(contents);
    match next_marker(&t, 0) {
        None => None,
        Some(p) => {
            assert(marker().len() == 6);
            let start = p + 6;
            let end = next_line_end(&t, start);
            let (a, b) = trimmed_bounds(&t, start, end);
            if a == b {
                None
            } else {
                Some(String::from_str(contents.substring_char(a, b)))
            }
        },
    }
}

/// The asset name of a sidecar file name, or `None` for a file name that is no
/// sidecar.
pub fn sidecar_stem(name: &str) -> (r: Option<String>)
    ensures
        match r {
            Some(stem) => sidecar_stem_of(name@) == Some(stem@),
            None => sidecar_stem_of(name@) is None,
        },
{
    let t = chars_of(name);
    let n = t.len();
    if n > 5 && t[n - 5] == '.' && t[n - 4] == 'm' && t[n - 3] == 'e' && t[n - 2] == 't' && t[n
        - 1] == 'a' {
        assert(t@.subrange(n - 5, n as int) =~= sidecar_suffix());
        Some(String::from_str(name.substring_char(0, n - 5)))
    } else {
        proof {
            let w = name@.subrange(n - 5, n as int);
            if n > 5 && w == sidecar_suffix() {
                assert(w[0] == '.' && w[1] == 'm' && w[2] == 'e' && w[3] == 't' && w[4] == 'a');
            }
        }
        None
    }
}

/// Places `name` inside the directory `dir`.
pub fn join_path(dir: &str, name: &str) -> (r: String)
    ensures
        r@ == join_spec(dir@, name@),
{
    let d = chars_of(dir);
    let n = chars_of(name);
    if (n.len() > 0 && n[0] == '/') || d.len() == 0 {
        String::from_str(name)
    } else if d[d.len() - 1] == '/' {
        String::from_str(dir).concat(name)
    } else {
        proof {
            reveal_strlit("/");
        }
        let r = String::from_str(dir).concat("/").concat(name);
        assert(r@ =~= dir@ + seq!['/'] + name@);
        r
    }
}

/// One sidecar file: the identity it names, where it lies, and fingerprints of
/// its identity and of its asset name.
#[derive(Debug, Default)]
pub struct MetaFile {
    /// The directory that holds the sidecar.
    pub directory: String,
    /// The asset name: the sidecar's file name without its extension.
    pub base_name: String,
    /// The identity that the sidecar names.
    pub guid: String,
    /// Fingerprint of `guid`.
    pub guid_hash: u64,
    /// Fingerprint of `base_name`.
    pub base_hash: u64,
}

impl Clone for MetaFile {
    fn clone(&self) -> (r: Self)
        ensures
            r == *self,
    {
        MetaFile {
            directory: self.directory.clone(),
            base_name: self.base_name.clone(),
            guid: self.guid.clone(),
            guid_hash: self.guid_hash,
            base_hash: self.base_hash,
        }
    }
}

impl MetaFile {
    /// A record as sidecar text produces it: its identity is not empty and
    /// both fingerprints are those of the strings they stand for.
    pub open spec fn wf(&self) -> bool {
        &&& self.guid@.len() > 0
        &&& self.guid_hash == fingerprint_spec(self.guid@)
        &&& self.base_hash == fingerprint_spec(self.base_name@)
    }

    /// The record for the sidecar of asset `base_name` in `directory` whose
    /// text is `contents`; `None` where the text names no identity.
    pub fn from_contents(directory: &str, base_name: &str, contents: &str) -> (r: Option<Self>)
        ensures
            r is Some <==> identity_in(contents@) is Some,
            r matches Some(m) ==> {
                &&& m.wf()
                &&& Some(m.guid@) == identity_in(contents@)
                &&& m.directory@ == directory@
                &&& m.base_name@ == base_name@
            },
    {
        match parse_identity(contents) {
            None => None,
            Some(guid) => {
                let guid_hash = fingerprint(guid.as_str());
                let base_hash = fingerprint(base_name);
                Some(
                    MetaFile {
                        directory: String::from_str(directory),
                        base_name: String::from_str(base_name),
                        guid,
                        guid_hash,
                        base_hash,
                    },
                )
            },
        }
    }

    /// The asset's path and its sidecar's path, were the asset in the
    /// directory `stem`.
    pub fn get_paths_stem(&self, stem: &String) -> (r: (String, String))
        ensures
            r.0@ == join_spec(stem@, self.base_name@),
            r.1@ == join_spec(stem@, self.base_name@) + sidecar_suffix(),
    {
        let asset = join_path(stem.as_str(), self.base_name.as_str());
        proof {
            reveal_strlit(".meta");
        }
        let meta = asset.clone().concat(".meta");
        assert(".meta"@ =~= sidecar_suffix());
        (asset, meta)
    }

    /// The asset's path and its sidecar's path.
    pub fn get_paths(&self) -> (r: (String, String))
        ensures
            r.0@ == join_spec(self.directory@, self.base_name@),
            r.1@ == join_spec(self.directory@, self.base_name@) + sidecar_suffix(),
    {
        self.get_paths_stem(&self.directory)
    }
}

} // verus!
