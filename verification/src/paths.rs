//! Filesystem paths as the library sees them: UTF-8 strings, taken apart with
//! `std::path::Path`. The library decides with these answers; the reading and
//! writing of files happens around it.
use crate::text::{chars_of, eq_ignore_ascii_case, replace_exec, string_from_vec};
use std::path::{Component, Path};
use vstd::prelude::*;

verus! {

/// One component of a path, as `std::path::Component` names them.
#[derive(Debug, Clone, PartialEq, Eq)]
pub enum PathPart {
    Prefix(String),
    Root,
    Cur,
    Parent,
    Normal(String),
}

pub enum PathPartV {
    Prefix(Seq<char>),
    Root,
    Cur,
    Parent,
    Normal(Seq<char>),
}

impl DeepView for PathPart {
    type V = PathPartV;

    open spec fn deep_view(&self) -> PathPartV {
        match self {
            PathPart::Prefix(s) => PathPartV::Prefix(s@),
            PathPart::Root => PathPartV::Root,
            PathPart::Cur => PathPartV::Cur,
            PathPart::Parent => PathPartV::Parent,
            PathPart::Normal(s) => PathPartV::Normal(s@),
        }
    }
}

/// What `Path::components` yields for `p`.
pub uninterp spec fn path_components(p: Seq<char>) -> Seq<PathPartV>;

/// What `Path::strip_prefix` leaves of `p` after the components of `base`, as
/// text, or `None` when `base` is not a component-wise prefix of `p`.
pub uninterp spec fn path_strip_prefix(p: Seq<char>, base: Seq<char>) -> Option<Seq<char>>;

/// What `Path::extension` gives for `p`: the text after the last `.` of the
/// file name, if the name has one that does not start it.
pub uninterp spec fn path_extension(p: Seq<char>) -> Option<Seq<char>>;

/// What `Path::starts_with` answers: are the components of `base` a prefix of
/// those of `p`?
pub uninterp spec fn path_starts_with(p: Seq<char>, base: Seq<char>) -> bool;

/// `Path::components`, each component converted to a [`PathPart`]. The
/// contract claims only that the parts are the (named) components of `p`.
#[verifier::external_body]
pub(crate) fn components_of(p: &str) -> (r: Vec<PathPart>)
    ensures
        r.deep_view() == path_components(p@),
{
    let mut out = Vec::new();
    for c in Path::new(p).components() {
        out.push(match c {
            Component::Prefix(x) => PathPart::Prefix(x.as_os_str().to_string_lossy().into_owned()),
            Component::RootDir => PathPart::Root,
            Component::CurDir => PathPart::Cur,
            Component::ParentDir => PathPart::Parent,
            Component::Normal(n) => PathPart::Normal(n.to_string_lossy().into_owned()),
        });
    }
    out
}

/// `Path::strip_prefix`, the rest turned into its text. The contract claims
/// only that the answer is the (named) result for `p` and `base`.
#[verifier::external_body]
pub(crate) fn strip_path_prefix(p: &str, base: &str) -> (r: Option<String>)
    ensures
        r.deep_view() == path_strip_prefix(p@, base@),
{
    Path::new(p).strip_prefix(base).ok().map(|rest| rest.to_string_lossy().into_owned())
}

/// `Path::extension`, as text. The contract claims only that the answer is the
/// (named) extension of `p`.
#[verifier::external_body]
pub(crate) fn extension_of(p: &str) -> (r: Option<String>)
    ensures
        r.deep_view() == path_extension(p@),
{
    Path::new(p).extension().map(|e| e.to_string_lossy().into_owned())
}

/// `Path::starts_with`. The contract claims only that the answer is the
/// (named) component-wise prefix test.
#[verifier::external_body]
pub(crate) fn path_has_prefix(p: &str, base: &str) -> (r: bool)
    ensures
        r == path_starts_with(p@, base@),
{
    Path::new(p).starts_with(base)
}

/// A `.md` extension, in any letter case.
pub open spec fn is_md_spec(p: Seq<char>) -> bool {
    match path_extension(p) {
        Some(e) => eq_ignore_ascii_case(e, "md"@),
        None => false,
    }
}

/// Does the path have a `.md` extension (in any letter case)?
pub fn is_md(p: &str) -> (r: bool)
    ensures
        r == is_md_spec(p@),
{
    match extension_of(p) {
        Some(e) => crate::text::str_eq_ignore_ascii_case(e.as_str(), "md"),
        None => false,
    }
}

/// `s` with every `\` made `/`.
pub open spec fn forward_slashes(s: Seq<char>) -> Seq<char> {
    crate::text::replace_all(s, seq!['\\'], seq!['/'])
}

/// The vault-relative, forward-slash path of `abs`, when it lies under
/// `vault_root`.
pub open spec fn to_rel_spec(vault_root: Seq<char>, abs: Seq<char>) -> Option<Seq<char>> {
    match path_strip_prefix(abs, vault_root) {
        Some(rel) => Some(forward_slashes(rel)),
        None => None,
    }
}

/// Vault-relative, forward-slash path for `abs`, or `None` if it's outside.
pub fn to_rel(vault_root: &str, abs: &str) -> (r: Option<String>)
    ensures
        r.deep_view() == to_rel_spec(vault_root@, abs@),
{
    match strip_path_prefix(abs, vault_root) {
        Some(rel) => {
            let v = chars_of(rel.as_str());
            let mut from: Vec<char> = Vec::new();
            from.push('\\');
            let mut to: Vec<char> = Vec::new();
            to.push('/');
            assert(from@ =~= seq!['\\']);
            assert(to@ =~= seq!['/']);
            let out = replace_exec(&v, &from, &to);
            Some(string_from_vec(&out))
        },
        None => None,
    }
}

} // verus!
