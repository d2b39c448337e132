//! Paths in an object store, and the keys under which a manifest manager finds
//! and caches its files.

use object_store::path::Path;
use vstd::prelude::*;
use vstd::string::*;

use crate::text;

verus! {

/// A path in an object store (`object_store::path::Path`).
#[verifier::external_type_specification]
#[verifier::external_body]
pub struct ExStorePath(Path);

/// The text of a path.
pub uninterp spec fn path_text(p: Path) -> Seq<char>;

/// The text of one part of a path, as `object_store::path::PathPart::from`
/// encodes it.
pub uninterp spec fn encoded_part(s: Seq<char>) -> Seq<char>;

/// The parts of a path, encoded and without the empty ones.
pub open spec fn encoded_parts(parts: Seq<Seq<char>>) -> Seq<Seq<char>>
    decreases parts.len(),
{
    if parts.len() == 0 {
        Seq::empty()
    } else {
        let before = encoded_parts(parts.drop_last());
        let part = encoded_part(parts.last());
        if part.len() == 0 {
            before
        } else {
            before.push(part)
        }
    }
}

/// The text of a path: its parts between slashes, encoded and without the empty ones.
pub open spec fn encoded_path(s: Seq<char>) -> Seq<char> {
    text::joined(encoded_parts(text::pieces(s, '/')), "/"@)
}

/// `object_store::path::Path::from`: the parts between slashes, encoded and
/// without the empty ones.
#[verifier::external_body]
pub(crate) fn path_from(s: &str) -> (r: Path)
    ensures
        path_text(r) == encoded_path(s@),
{
    Path::from(s)
}

/// `object_store::path::Path::child`: the path with one more part, encoded.
#[verifier::external_body]
pub(crate) fn path_child(p: &Path, name: &str) -> (r: Path)
    ensures
        path_text(r) == if path_text(*p).len() == 0 {
            encoded_part(name@)
        } else {
            path_text(*p) + "/"@ + encoded_part(name@)
        },
{
    p.child(name)
}

/// `object_store::path::Path::as_ref`: the text of a path.
#[verifier::external_body]
pub(crate) fn path_to_text(p: &Path) -> (r: String)
    ensures
        r@ == path_text(*p),
{
    p.as_ref().to_string()
}

/// The key of an object: the path that the store makes of a text.
pub fn object_key(s: &str) -> (r: String)
    ensures
        r@ == encoded_path(s@),
{
    let p = path_from(s);
    path_to_text(&p)
}

/// Where the manifests of a table are kept.
#[derive(Debug)]
pub struct ManifestManager {
    /// The manifest directory in the store.
    pub manifest_dir: Path,
    /// The root of the table, without trailing slashes.
    pub root_uri: String,
}

/// The manifest directory under a base path.
pub open spec fn manifest_dir_of(base_path: Seq<char>) -> Seq<char> {
    if base_path.len() == 0 {
        "_manifest/"@
    } else {
        base_path + "/_manifest/"@
    }
}

impl ManifestManager {
    /// The manager of the table under a base path.
    pub fn new(base_path: &str, root_uri: &str) -> (r: Self)
        ensures
            path_text(r.manifest_dir) == encoded_path(manifest_dir_of(base_path@)),
            r.root_uri@ == text::without_trailing(root_uri@, '/'),
    {
        let manifest_dir = if base_path.is_empty() {
            path_from("_manifest/")
        } else {
            let mut dir: String = base_path.to_owned();
            dir.append("/_manifest/");
            path_from(dir.as_str())
        };
        ManifestManager { manifest_dir, root_uri: text::trim_end_char(root_uri, '/') }
    }

    /// The path of a file in the manifest directory.
    pub fn manifest_path(&self, filename: &str) -> (r: Path)
        ensures
            path_text(r) == if path_text(self.manifest_dir).len() == 0 {
                encoded_part(filename@)
            } else {
                path_text(self.manifest_dir) + "/"@ + encoded_part(filename@)
            },
    {
        path_child(&self.manifest_dir, filename)
    }

    /// The key under which an object is cached.
    pub fn get_cache_key(&self, path: &Path) -> (r: String)
        ensures
            r@ == self.root_uri@ + "/"@ + path_text(*path),
    {
        let mut key: String = self.root_uri.clone();
        key.append("/");
        key.append(path_to_text(path).as_str());
        key
    }

    /// The key under which the listing of the manifest directory is cached.
    pub fn get_dir_cache_key(&self) -> (r: String)
        ensures
            r@ == text::without_trailing(
                self.root_uri@ + "/"@ + path_text(self.manifest_dir),
                '/',
            ),
    {
        let key: String = self.get_cache_key(&self.manifest_dir);
        text::trim_end_char(key.as_str(), '/')
    }
}

/// No cache key of a directory ends in a slash, so it names the directory the
/// same way however its path was written.
pub proof fn law_dir_keys_end_in_no_slash(key: Seq<char>)
    ensures
        text::without_trailing(key, '/').len() == 0 || text::without_trailing(key, '/').last()
            != '/',
        text::without_trailing(text::without_trailing(key, '/'), '/') == text::without_trailing(
            key,
            '/',
        ),
    decreases key.len(),
{
    if key.len() > 0 && key.last() == '/' {
        law_dir_keys_end_in_no_slash(key.drop_last());
    }
}

} // verus!
