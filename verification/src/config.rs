//! The configuration model and the expansion of the per-cycle work matrix:
//! one entry per release × repository-set × testing-flag.

use vstd::prelude::*;

use crate::data::{clone_string_vec, string_views};
use crate::text::str_equal;

verus! {

/// Scheduler settings: the refresh interval, held in seconds.
#[derive(Clone, Debug, PartialEq)]
pub struct RepoCheckerConfig {
    pub interval_seconds: u64,
}

/// The repository labels of each repository class.
#[derive(Clone, Debug, PartialEq)]
pub struct RepoConfig {
    pub stable: Vec<String>,
    pub updates: Vec<String>,
    pub testing: Vec<String>,
    pub rawhide: Vec<String>,
}

/// Mathematical image of a `RepoConfig`.
pub struct RepoConfigV {
    pub stable: Seq<Seq<char>>,
    pub updates: Seq<Seq<char>>,
    pub testing: Seq<Seq<char>>,
    pub rawhide: Seq<Seq<char>>,
}

impl View for RepoConfig {
    type V = RepoConfigV;

    open spec fn view(&self) -> RepoConfigV {
        RepoConfigV {
            stable: string_views(self.stable@),
            updates: string_views(self.updates@),
            testing: string_views(self.testing@),
            rawhide: string_views(self.rawhide@),
        }
    }
}

/// One architecture with its multi-arch list.
#[derive(Clone, Debug, PartialEq)]
pub struct ArchConfig {
    pub name: String,
    pub multiarch: Vec<String>,
}

/// Mathematical image of an `ArchConfig`.
pub struct ArchConfigV {
    pub name: Seq<char>,
    pub multiarch: Seq<Seq<char>>,
}

impl View for ArchConfig {
    type V = ArchConfigV;

    open spec fn view(&self) -> ArchConfigV {
        ArchConfigV { name: self.name@, multiarch: string_views(self.multiarch@) }
    }
}

/// The kind of a release, deciding which repository sets it is checked
/// against.
#[derive(Clone, Copy, Debug, PartialEq, Eq, Structural)]
pub enum ReleaseType {
    Rawhide,
    PreRelease,
    Stable,
}

/// One configured release.
#[derive(Clone, Debug, PartialEq)]
pub struct ReleaseConfig {
    pub name: String,
    pub rtype: ReleaseType,
    pub arches: Vec<String>,
    pub archived: bool,
}

/// Mathematical image of a `ReleaseConfig`.
pub struct ReleaseConfigV {
    pub name: Seq<char>,
    pub rtype: ReleaseType,
    pub arches: Seq<Seq<char>>,
    pub archived: bool,
}

impl View for ReleaseConfig {
    type V = ReleaseConfigV;

    open spec fn view(&self) -> ReleaseConfigV {
        ReleaseConfigV {
            name: self.name@,
            rtype: self.rtype,
            arches: string_views(self.arches@),
            archived: self.archived,
        }
    }
}

/// The whole configuration.
#[derive(Clone, Debug, PartialEq)]
pub struct Config {
    pub repochecker: RepoCheckerConfig,
    pub repos: RepoConfig,
    pub arches: Vec<ArchConfig>,
    pub releases: Vec<ReleaseConfig>,
}

/// Mathematical image of a `Config`.
pub struct ConfigV {
    pub interval_seconds: u64,
    pub repos: RepoConfigV,
    pub arches: Seq<ArchConfigV>,
    pub releases: Seq<ReleaseConfigV>,
}

impl View for Config {
    type V = ConfigV;

    open spec fn view(&self) -> ConfigV {
        ConfigV {
            interval_seconds: self.repochecker.interval_seconds,
            repos: self.repos@,
            arches: self.arches@.map_values(|a: ArchConfig| a@),
            releases: self.releases@.map_values(|r: ReleaseConfig| r@),
        }
    }
}

/// One architecture of a matrix entry, resolved against the global table.
#[derive(Clone, Debug, PartialEq)]
pub struct Arch {
    pub name: String,
    pub multi_arch: Vec<String>,
}

/// Mathematical image of an `Arch`.
pub struct ArchV {
    pub name: Seq<char>,
    pub multi_arch: Seq<Seq<char>>,
}

impl View for Arch {
    type V = ArchV;

    open spec fn view(&self) -> ArchV {
        ArchV { name: self.name@, multi_arch: string_views(self.multi_arch@) }
    }
}

/// One unit of work of a refresh cycle.
#[derive(Clone, Debug, PartialEq)]
pub struct MatrixEntry {
    pub release: String,
    pub arches: Vec<Arch>,
    pub repos: Vec<String>,
    pub check: Vec<String>,
    pub with_testing: bool,
    pub archived: bool,
}

/// Mathematical image of a `MatrixEntry`.
pub struct MatrixEntryV {
    pub release: Seq<char>,
    pub arches: Seq<ArchV>,
    pub repos: Seq<Seq<char>>,
    pub check: Seq<Seq<char>>,
    pub with_testing: bool,
    pub archived: bool,
}

impl View for MatrixEntry {
    type V = MatrixEntryV;

    open spec fn view(&self) -> MatrixEntryV {
        MatrixEntryV {
            release: self.release@,
            arches: self.arches@.map_values(|a: Arch| a@),
            repos: string_views(self.repos@),
            check: string_views(self.check@),
            with_testing: self.with_testing,
            archived: self.archived,
        }
    }
}

/// Index of the last architecture entry named `name`, or `-1`; a later
/// entry overrides an earlier one of the same name.
pub open spec fn arch_index(cfgs: Seq<ArchConfigV>, name: Seq<char>) -> int
    decreases cfgs.len(),
{
    if cfgs.len() == 0 {
        -1
    } else if cfgs[cfgs.len() - 1].name == name {
        cfgs.len() - 1
    } else {
        arch_index(cfgs.drop_last(), name)
    }
}

pub open spec fn has_arch(cfgs: Seq<ArchConfigV>, name: Seq<char>) -> bool {
    arch_index(cfgs, name) >= 0
}

/// The multi-arch list configured for `name`.
pub open spec fn multiarch_of(cfgs: Seq<ArchConfigV>, name: Seq<char>) -> Seq<Seq<char>> {
    cfgs[arch_index(cfgs, name)].multiarch
}

proof fn lemma_arch_index_witness(cfgs: Seq<ArchConfigV>, name: Seq<char>, k: int)
    requires
        0 <= k < cfgs.len(),
        cfgs[k].name == name,
        forall|m: int| k < m < cfgs.len() ==> (#[trigger] cfgs[m]).name != name,
    ensures
        arch_index(cfgs, name) == k,
    decreases cfgs.len(),
{
    if cfgs.len() - 1 > k {
        lemma_arch_index_witness(cfgs.drop_last(), name, k);
    }
}

proof fn lemma_arch_index_none(cfgs: Seq<ArchConfigV>, name: Seq<char>)
    requires
        forall|m: int| 0 <= m < cfgs.len() ==> (#[trigger] cfgs[m]).name != name,
    ensures
        arch_index(cfgs, name) == -1,
    decreases cfgs.len(),
{
    if cfgs.len() > 0 {
        lemma_arch_index_none(cfgs.drop_last(), name);
    }
}

/// Every arch name of every release is configured.
pub open spec fn config_ok(c: ConfigV) -> bool {
    forall|i: int, j: int|
        0 <= i < c.releases.len() && 0 <= j < c.releases[i].arches.len() ==> has_arch(
            c.arches,
            #[trigger] c.releases[i].arches[j],
        )
}

/// A release's arch names resolved against the global table.
pub open spec fn resolved_arches(cfgs: Seq<ArchConfigV>, names: Seq<Seq<char>>) -> Seq<ArchV> {
    Seq::new(names.len(), |j: int| ArchV { name: names[j], multi_arch: multiarch_of(cfgs, names[j]) })
}

/// The repository sets a release type produces: full set, checked subset,
/// and testing flag.
pub open spec fn expand_repos(repos: RepoConfigV, rtype: ReleaseType) -> Seq<
    (Seq<Seq<char>>, Seq<Seq<char>>, bool),
> {
    match rtype {
        ReleaseType::Rawhide => seq![(repos.rawhide, repos.rawhide, false)],
        ReleaseType::PreRelease => seq![(repos.stable, repos.stable, false)],
        ReleaseType::Stable => seq![
            (repos.stable + repos.updates, repos.stable + repos.updates, false),
            (repos.stable + repos.updates + repos.testing, repos.testing, true),
        ],
    }
}

/// The matrix entries of the release at index `i`.
pub open spec fn release_group(c: ConfigV, i: int) -> Seq<MatrixEntryV> {
    let rel = c.releases[i];
    expand_repos(c.repos, rel.rtype).map_values(
        |rs: (Seq<Seq<char>>, Seq<Seq<char>>, bool)| MatrixEntryV {
            release: rel.name,
            arches: resolved_arches(c.arches, rel.arches),
            repos: rs.0,
            check: rs.1,
            with_testing: rs.2,
            archived: rel.archived,
        },
    )
}

/// The matrix entries of the first `i` releases, in order.
pub open spec fn matrix_prefix(c: ConfigV, i: int) -> Seq<MatrixEntryV>
    decreases i,
{
    if i <= 0 {
        Seq::empty()
    } else {
        matrix_prefix(c, i - 1) + release_group(c, i - 1)
    }
}

/// The full work matrix of a configuration.
pub open spec fn config_matrix(c: ConfigV) -> Seq<MatrixEntryV> {
    matrix_prefix(c, c.releases.len() as int)
}

/// Matrix expansion law: a rawhide or prerelease release contributes
/// exactly one entry, a stable release exactly two — the second carrying
/// `with_testing` and checking exactly the testing repositories.
pub proof fn lemma_matrix_expansion(c: ConfigV, i: int)
    requires
        0 <= i < c.releases.len(),
    ensures
        c.releases[i].rtype is Rawhide ==> release_group(c, i).len() == 1 && release_group(c, i)[0]
            =~= rawhide_entry(c, i),
        c.releases[i].rtype is PreRelease ==> release_group(c, i).len() == 1 && release_group(
            c,
            i,
        )[0] =~= prerelease_entry(c, i),
        c.releases[i].rtype is Stable ==> release_group(c, i).len() == 2 && release_group(c, i)[0]
            =~= stable_entry(c, i) && release_group(c, i)[1] =~= stable_testing_entry(c, i),
{
}

/// The one entry of a rawhide release: rawhide repositories, all checked.
pub open spec fn rawhide_entry(c: ConfigV, i: int) -> MatrixEntryV {
    MatrixEntryV {
        release: c.releases[i].name,
        arches: resolved_arches(c.arches, c.releases[i].arches),
        repos: c.repos.rawhide,
        check: c.repos.rawhide,
        with_testing: false,
        archived: c.releases[i].archived,
    }
}

/// The one entry of a prerelease: stable repositories, all checked.
pub open spec fn prerelease_entry(c: ConfigV, i: int) -> MatrixEntryV {
    MatrixEntryV {
        release: c.releases[i].name,
        arches: resolved_arches(c.arches, c.releases[i].arches),
        repos: c.repos.stable,
        check: c.repos.stable,
        with_testing: false,
        archived: c.releases[i].archived,
    }
}

/// The first entry of a stable release: stable and updates, all checked.
pub open spec fn stable_entry(c: ConfigV, i: int) -> MatrixEntryV {
    MatrixEntryV {
        release: c.releases[i].name,
        arches: resolved_arches(c.arches, c.releases[i].arches),
        repos: c.repos.stable + c.repos.updates,
        check: c.repos.stable + c.repos.updates,
        with_testing: false,
        archived: c.releases[i].archived,
    }
}

/// The second entry of a stable release: testing added, only testing
/// checked, and the testing flag set.
pub open spec fn stable_testing_entry(c: ConfigV, i: int) -> MatrixEntryV {
    MatrixEntryV {
        release: c.releases[i].name,
        arches: resolved_arches(c.arches, c.releases[i].arches),
        repos: c.repos.stable + c.repos.updates + c.repos.testing,
        check: c.repos.testing,
        with_testing: true,
        archived: c.releases[i].archived,
    }
}

/// The labels of `a` followed by those of `b`.
fn concat_string_vecs(a: &Vec<String>, b: &Vec<String>) -> (r: Vec<String>)
    ensures
        string_views(r@) == string_views(a@) + string_views(b@),
{
    let mut r = clone_string_vec(a);
    proof {
        assert forall|j: int| 0 <= j < a@.len() implies r@[j]@ == a@[j]@ by {
            assert(string_views(r@)[j] == r@[j]@);
            assert(string_views(a@)[j] == a@[j]@);
        }
    }
    let mut i: usize = 0;
    while i < b.len()
        invariant
            0 <= i <= b@.len(),
            r@.len() == a@.len() + i,
            forall|j: int| 0 <= j < a@.len() ==> r@[j]@ == a@[j]@,
            forall|j: int| 0 <= j < i ==> r@[a@.len() + j]@ == b@[j]@,
        decreases b@.len() - i,
    {
        r.push(b[i].clone());
        i = i + 1;
    }
    proof {
        assert(string_views(r@) =~= string_views(a@) + string_views(b@));
    }
    r
}

/// Copy a vector of resolved architectures, preserving its view.
fn clone_arch_vec(v: &Vec<Arch>) -> (r: Vec<Arch>)
    ensures
        r@.map_values(|a: Arch| a@) == v@.map_values(|a: Arch| a@),
{
    let mut r: Vec<Arch> = Vec::new();
    let mut i: usize = 0;
    while i < v.len()
        invariant
            0 <= i <= v@.len(),
            r@.len() == i,
            forall|j: int| 0 <= j < i ==> (#[trigger] r@[j])@ == v@[j]@,
        decreases v@.len() - i,
    {
        let a = Arch { name: v[i].name.clone(), multi_arch: clone_string_vec(&v[i].multi_arch) };
        proof {
            assert(a@.multi_arch == v@[i as int]@.multi_arch);
        }
        r.push(a);
        i = i + 1;
    }
    proof {
        assert(r@.map_values(|a: Arch| a@) =~= v@.map_values(|a: Arch| a@));
    }
    r
}

impl Config {
    /// Expand the work matrix: per release, one entry for each repository
    /// set its type produces, every entry carrying the release's arch list
    /// resolved against the global arch table. A release arch missing from
    /// that table is a configuration error naming the release and arch.
    pub fn to_matrix(&self) -> (r: Result<Vec<MatrixEntry>, String>)
        ensures
            match r {
                Ok(v) => config_ok(self@) && v@.map_values(|e: MatrixEntry| e@) == config_matrix(
                    self@,
                ),
                Err(_) => !config_ok(self@),
            },
    {
        let ghost cv = self@;
        let mut matrix: Vec<MatrixEntry> = Vec::new();
        let mut i: usize = 0;
        while i < self.releases.len()
            invariant
                cv == self@,
                0 <= i <= self.releases@.len(),
                cv.releases.len() == self.releases@.len(),
                forall|i2: int, j2: int|
                    0 <= i2 < i && 0 <= j2 < cv.releases[i2].arches.len() ==> has_arch(
                        cv.arches,
                        #[trigger] cv.releases[i2].arches[j2],
                    ),
                matrix@.map_values(|e: MatrixEntry| e@) == matrix_prefix(cv, i as int),
            decreases self.releases@.len() - i,
        {
            let release = &self.releases[i];
            proof {
                assert(cv.releases[i as int] == release@);
            }
            let mut arches: Vec<Arch> = Vec::new();
            let mut j: usize = 0;
            while j < release.arches.len()
                invariant
                    cv == self@,
                    0 <= i < cv.releases.len(),
                    release@ == cv.releases[i as int],
                    0 <= j <= release.arches@.len(),
                    release@.arches.len() == release.arches@.len(),
                    forall|j2: int|
                        0 <= j2 < j ==> has_arch(cv.arches, #[trigger] release@.arches[j2]),
                    arches@.len() == j,
                    forall|j2: int|
                        0 <= j2 < j ==> (#[trigger] arches@[j2])@ == (ArchV {
                            name: release@.arches[j2],
                            multi_arch: multiarch_of(cv.arches, release@.arches[j2]),
                        }),
                decreases release.arches@.len() - j,
            {
                let name = &release.arches[j];
                proof {
                    assert(release@.arches[j as int] == name@);
                }
                let mut k: usize = self.arches.len();
                let mut idx: Option<usize> = None;
                while k > 0 && idx.is_none()
                    invariant
                        cv == self@,
                        0 <= k <= cv.arches.len(),
                        cv.arches.len() == self.arches@.len(),
                        match idx {
                            Some(m) => arch_index(cv.arches, name@) == m as int && (m as int)
                                < cv.arches.len(),
                            None => forall|m: int|
                                k <= m < cv.arches.len() ==> (#[trigger] cv.arches[m]).name
                                    != name@,
                        },
                    decreases k,
                {
                    k = k - 1;
                    proof {
                        assert(cv.arches[k as int] == self.arches@[k as int]@);
                    }
                    if str_equal(self.arches[k].name.as_str(), name.as_str()) {
                        proof {
                            lemma_arch_index_witness(cv.arches, name@, k as int);
                        }
                        idx = Some(k);
                    }
                }
                match idx {
                    Some(m) => {
                        let cfg = &self.arches[m];
                        proof {
                            assert(cv.arches[m as int] == cfg@);
                        }
                        let a = Arch {
                            name: name.clone(),
                            multi_arch: clone_string_vec(&cfg.multiarch),
                        };
                        proof {
                            assert(a@.multi_arch == multiarch_of(cv.arches, name@));
                        }
                        arches.push(a);
                    },
                    None => {
                        proof {
                            lemma_arch_index_none(cv.arches, name@);
                            assert(!has_arch(cv.arches, cv.releases[i as int].arches[j as int]));
                            assert(!config_ok(cv));
                        }
                        let mut msg = String::from_str(
                            "Could not find multiarch configuration for ",
                        );
                        msg.append(release.name.as_str());
                        msg.append("/");
                        msg.append(name.as_str());
                        msg.append(".");
                        return Err(msg);
                    },
                }
                j = j + 1;
            }
            proof {
                assert(arches@.map_values(|a: Arch| a@) =~= resolved_arches(
                    cv.arches,
                    release@.arches,
                ));
            }
            let ghost group = release_group(cv, i as int);
            let ghost before = matrix@.map_values(|e: MatrixEntry| e@);
            match release.rtype {
                ReleaseType::Rawhide => {
                    let entry = MatrixEntry {
                        release: release.name.clone(),
                        arches,
                        repos: clone_string_vec(&self.repos.rawhide),
                        check: clone_string_vec(&self.repos.rawhide),
                        with_testing: false,
                        archived: release.archived,
                    };
                    proof {
                        assert(entry@.repos =~= cv.repos.rawhide);
                        assert(entry@.check =~= cv.repos.rawhide);
                        assert(entry@ == group[0]);
                        assert(before.push(entry@) =~= before + group);
                    }
                    matrix.push(entry);
                },
                ReleaseType::PreRelease => {
                    let entry = MatrixEntry {
                        release: release.name.clone(),
                        arches,
                        repos: clone_string_vec(&self.repos.stable),
                        check: clone_string_vec(&self.repos.stable),
                        with_testing: false,
                        archived: release.archived,
                    };
                    proof {
                        assert(entry@.repos =~= cv.repos.stable);
                        assert(entry@.check =~= cv.repos.stable);
                        assert(entry@ == group[0]);
                        assert(before.push(entry@) =~= before + group);
                    }
                    matrix.push(entry);
                },
                ReleaseType::Stable => {
                    let stable_repos = concat_string_vecs(&self.repos.stable, &self.repos.updates);
                    let testing_repos = concat_string_vecs(&stable_repos, &self.repos.testing);
                    let arches_testing = clone_arch_vec(&arches);
                    let first = MatrixEntry {
                        release: release.name.clone(),
                        arches,
                        repos: clone_string_vec(&stable_repos),
                        check: stable_repos,
                        with_testing: false,
                        archived: release.archived,
                    };
                    let second = MatrixEntry {
                        release: release.name.clone(),
                        arches: arches_testing,
                        repos: testing_repos,
                        check: clone_string_vec(&self.repos.testing),
                        with_testing: true,
                        archived: release.archived,
                    };
                    proof {
                        assert(first@.repos =~= cv.repos.stable + cv.repos.updates);
                        assert(first@.check =~= cv.repos.stable + cv.repos.updates);
                        assert(second@.repos =~= cv.repos.stable + cv.repos.updates
                            + cv.repos.testing);
                        assert(second@.check =~= cv.repos.testing);
                        assert(first@ == group[0]);
                        assert(second@ == group[1]);
                        assert(before.push(first@).push(second@) =~= before + group);
                    }
                    matrix.push(first);
                    matrix.push(second);
                },
            }
            proof {
                assert(matrix@.map_values(|e: MatrixEntry| e@) =~= before + group);
                assert(matrix_prefix(cv, i + 1) == matrix_prefix(cv, i as int) + group);
            }
            i = i + 1;
        }
        Ok(matrix)
    }
}

} // verus!
