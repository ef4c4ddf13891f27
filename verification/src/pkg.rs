//! Package manifests: the module manifest format of an Augur package and
//! the Cargo `[dependencies]` table derived from it.
//!
//! A manifest's dependencies are kept as `(name, dependency)` pairs sorted
//! by name, each name once (see [`deps_wf`]).
use vstd::prelude::*;
use std::path::PathBuf;

verus! {

/// A dependency of a package.
#[derive(Debug, Clone, PartialEq)]
pub struct Dependency {
    pub version: String,
    pub git: Option<String>,
    pub path: Option<String>,
}

/// The `[package]` table of a manifest.
#[derive(Debug, Clone, PartialEq)]
pub struct PackageMeta {
    pub name: String,
    pub version: String,
    pub authors: Vec<String>,
    pub description: Option<String>,
}

/// An `Augur.toml` manifest.
#[derive(Debug, Clone, PartialEq)]
pub struct Manifest {
    /// Modules exported by this package (entry points the compiler can load).
    pub modules: Vec<String>,
    pub package: PackageMeta,
    /// Dependencies by name, sorted by name, each name once.
    pub dependencies: Vec<(String, Dependency)>,
}

/// Code-point order of texts.
pub open spec fn text_lt(a: Seq<char>, b: Seq<char>) -> bool
    decreases a.len(),
{
    if a.len() == 0 {
        b.len() > 0
    } else if b.len() == 0 {
        false
    } else if a[0] != b[0] {
        (a[0] as u32) < (b[0] as u32)
    } else {
        text_lt(a.drop_first(), b.drop_first())
    }
}

/// Dependencies sorted by name, each name once.
pub open spec fn deps_wf(deps: Seq<(String, Dependency)>) -> bool {
    forall|i: int, j: int| 0 <= i < j < deps.len() ==> text_lt(#[trigger] deps[i].0@, #[trigger] deps[j].0@)
}

/// The Rust `Debug` rendering of a string: in double quotes, with quotes,
/// backslashes and unprintable characters escaped.
pub uninterp spec fn debug_quoted(s: Seq<char>) -> Seq<char>;

/// Printable ASCII other than `"` and `\`.
pub open spec fn plain_char(c: char) -> bool {
    ' ' <= c <= '~' && c != '"' && c != '\\'
}

/// `format!("{:?}", s)` of a string: [`debug_quoted`] of it; a string of
/// printable ASCII without quotes or backslashes comes out between double
/// quotes unchanged, as the documentation of `char::escape_debug` shows.
#[verifier::external_body]
fn debug_string(s: &String) -> (r: String)
    ensures
        r@ == debug_quoted(s@),
        (forall|i: int| 0 <= i < s@.len() ==> plain_char(#[trigger] s@[i])) ==> r@ == "\""@ + s@ + "\""@,
{
    format!("{:?}", s)
}

/// The `key = value` parts of a dependency's Cargo entry.
pub open spec fn dep_parts(d: Dependency) -> Seq<char> {
    let v = "version = "@ + debug_quoted(d.version@);
    let g = match d.git {
        Some(x) => ", git = "@ + debug_quoted(x@),
        None => seq![],
    };
    let p = match d.path {
        Some(x) => ", path = "@ + debug_quoted(x@),
        None => seq![],
    };
    v + g + p
}

/// The Cargo `[dependencies]` lines of dependencies, in order.
pub open spec fn deps_lines(deps: Seq<(String, Dependency)>) -> Seq<char>
    decreases deps.len(),
{
    if deps.len() == 0 {
        seq![]
    } else {
        deps_lines(deps.drop_last()) + deps.last().0@ + " = { "@ + dep_parts(deps.last().1) + " }\n"@
    }
}

impl Manifest {
    /// Renders the Cargo `[dependencies]` table of the manifest's
    /// dependencies, one line per dependency in name order, each with its
    /// version, then its git source and its path when present.
    pub fn to_cargo_deps(&self) -> (r: String)
        requires
            deps_wf(self.dependencies@),
        ensures
            r@ == "[dependencies]\n"@ + deps_lines(self.dependencies@),
    {
        let mut out = String::from_str("[dependencies]\n");
        let ghost start = out@;
        let mut i: usize = 0;
        while i < self.dependencies.len()
            invariant
                i <= self.dependencies@.len(),
                start == "[dependencies]\n"@,
                out@ == start + deps_lines(self.dependencies@.take(i as int)),
            decreases self.dependencies.len() - i,
        {
            let (name, dep) = &self.dependencies[i];
            proof {
                assert(self.dependencies@.take(i + 1).drop_last() =~= self.dependencies@.take(i as int));
                assert(self.dependencies@.take(i + 1).last() == self.dependencies@[i as int]);
            }
            let ghost before = out@;
            out.append(name.as_str());
            out.append(" = { ");
            out.append("version = ");
            let v = debug_string(&dep.version);
            out.append(v.as_str());
            match &dep.git {
                Some(g) => {
                    out.append(", git = ");
                    let q = debug_string(g);
                    out.append(q.as_str());
                },
                None => {},
            }
            match &dep.path {
                Some(p) => {
                    out.append(", path = ");
                    let q = debug_string(p);
                    out.append(q.as_str());
                },
                None => {},
            }
            out.append(" }\n");
            proof {
                assert(*name == self.dependencies@[i as int].0);
                assert(*dep == self.dependencies@[i as int].1);
                assert(out@ =~= before + name@ + " = { "@ + dep_parts(*dep) + " }\n"@);
                assert(out@ =~= start + deps_lines(self.dependencies@.take(i + 1)));
            }
            i += 1;
        }
        proof {
            assert(self.dependencies@.take(self.dependencies@.len() as int) =~= self.dependencies@);
        }
        out
    }
}

/// A module source file bundled into a published package.
#[derive(Debug, Clone, PartialEq)]
pub struct PackageFile {
    /// Repository-relative path of the source (kept on install).
    pub path: String,
    /// The source text.
    pub contents: String,
}

/// A package as stored in the registry: its manifest and module sources.
#[derive(Debug, Clone, PartialEq)]
pub struct PublishedPackage {
    pub manifest: Manifest,
    pub sources: Vec<PackageFile>,
}

/// `std::path::PathBuf`, carried through opaquely.
#[verifier::external_type_specification]
#[verifier::external_body]
pub struct ExPathBuf(PathBuf);

/// A filesystem-backed package registry: packages live under
/// `<root>/<name>/<version>/`.
pub struct Registry {
    pub root: PathBuf,
}

impl Registry {
    /// The registry rooted at the given directory.
    pub fn new(root: PathBuf) -> (r: Registry)
        ensures
            r.root == root,
    {
        Registry { root }
    }
}

} // verus!
