//! The records that flow through the pipeline: repository contents,
//! freshly parsed broken dependencies, and published broken items.

use vstd::prelude::*;

verus! {

/// One record of the repository content listing: the six fields of the
/// query format. Architecture `"src"` designates a source artifact.
#[derive(Clone, Debug, PartialEq)]
pub struct Package {
    pub name: String,
    pub source_name: String,
    pub epoch: i32,
    pub version: String,
    pub release: String,
    pub arch: String,
}

/// Mathematical image of a `Package`.
pub struct PackageV {
    pub name: Seq<char>,
    pub source_name: Seq<char>,
    pub epoch: int,
    pub version: Seq<char>,
    pub release: Seq<char>,
    pub arch: Seq<char>,
}

impl View for Package {
    type V = PackageV;

    open spec fn view(&self) -> PackageV {
        PackageV {
            name: self.name@,
            source_name: self.source_name@,
            epoch: self.epoch as int,
            version: self.version@,
            release: self.release@,
            arch: self.arch@,
        }
    }
}

/// One record parsed from the closure-check output: the artifact's NEVRA
/// fields, the repository it came from, and the unresolved capabilities.
#[derive(Clone, Debug, PartialEq)]
pub struct BrokenDep {
    pub package: String,
    pub epoch: String,
    pub version: String,
    pub release: String,
    pub arch: String,
    pub repo: String,
    pub broken: Vec<String>,
}

/// Mathematical image of a `BrokenDep`.
pub struct BrokenDepV {
    pub package: Seq<char>,
    pub epoch: Seq<char>,
    pub version: Seq<char>,
    pub release: Seq<char>,
    pub arch: Seq<char>,
    pub repo: Seq<char>,
    pub broken: Seq<Seq<char>>,
}

impl View for BrokenDep {
    type V = BrokenDepV;

    open spec fn view(&self) -> BrokenDepV {
        BrokenDepV {
            package: self.package@,
            epoch: self.epoch@,
            version: self.version@,
            release: self.release@,
            arch: self.arch@,
            repo: self.repo@,
            broken: self.broken@.map_values(|s: String| s@),
        }
    }
}

/// One published broken item: a `BrokenDep` joined with its source package,
/// administrator, maintainers, the architecture the closure was computed
/// for, and the moment the breakage was first seen (seconds since the epoch).
#[derive(Clone, Debug, PartialEq)]
pub struct BrokenItem {
    pub source: String,
    pub package: String,
    pub epoch: String,
    pub version: String,
    pub release: String,
    pub arch: String,
    pub admin: String,
    pub maintainers: Vec<String>,
    pub repo: String,
    pub repo_arch: String,
    pub broken: Vec<String>,
    pub since: Option<i64>,
}

/// Mathematical image of a `BrokenItem`.
pub struct BrokenItemV {
    pub source: Seq<char>,
    pub package: Seq<char>,
    pub epoch: Seq<char>,
    pub version: Seq<char>,
    pub release: Seq<char>,
    pub arch: Seq<char>,
    pub admin: Seq<char>,
    pub maintainers: Seq<Seq<char>>,
    pub repo: Seq<char>,
    pub repo_arch: Seq<char>,
    pub broken: Seq<Seq<char>>,
    pub since: Option<int>,
}

impl View for BrokenItem {
    type V = BrokenItemV;

    open spec fn view(&self) -> BrokenItemV {
        BrokenItemV {
            source: self.source@,
            package: self.package@,
            epoch: self.epoch@,
            version: self.version@,
            release: self.release@,
            arch: self.arch@,
            admin: self.admin@,
            maintainers: self.maintainers@.map_values(|s: String| s@),
            repo: self.repo@,
            repo_arch: self.repo_arch@,
            broken: self.broken@.map_values(|s: String| s@),
            since: match self.since {
                Some(t) => Some(t as int),
                None => None,
            },
        }
    }
}

/// The views of a vector of strings.
pub open spec fn string_views(v: Seq<String>) -> Seq<Seq<char>> {
    v.map_values(|s: String| s@)
}

/// Copy a vector of strings, preserving its view.
pub fn clone_string_vec(v: &Vec<String>) -> (r: Vec<String>)
    ensures
        string_views(r@) == string_views(v@),
        r@.len() == v@.len(),
{
    let mut r: Vec<String> = Vec::new();
    let mut i: usize = 0;
    while i < v.len()
        invariant
            0 <= i <= v@.len(),
            r@.len() == i,
            forall|j: int| 0 <= j < i ==> r@[j]@ == v@[j]@,
        decreases v@.len() - i,
    {
        r.push(v[i].clone());
        i = i + 1;
    }
    proof {
        assert(string_views(r@) =~= string_views(v@));
    }
    r
}

/// Whether a vector of names holds `x`.
pub fn contains_string(ps: &Vec<String>, x: &str) -> (r: bool)
    ensures
        r == string_views(ps@).contains(x@),
{
    let ghost views = string_views(ps@);
    let mut i: usize = 0;
    while i < ps.len()
        invariant
            0 <= i <= ps@.len(),
            views == string_views(ps@),
            views.len() == ps@.len(),
            forall|j: int| 0 <= j < i ==> views[j] != x@,
        decreases ps@.len() - i,
    {
        proof {
            assert(views[i as int] == ps@[i as int]@);
        }
        if crate::text::str_equal(ps[i].as_str(), x) {
            proof {
                assert(views.contains(x@));
            }
            return true;
        }
        i = i + 1;
    }
    proof {
        assert(!views.contains(x@));
    }
    false
}

} // verus!
