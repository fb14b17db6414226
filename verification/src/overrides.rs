//! The layered override engine: a four-level hierarchy
//! release → arch → broken-capability → entry deciding whether a broken
//! dependency is a known-acceptable breakage, with a hit counter per leaf.

use vstd::prelude::*;

use crate::table::{
    assoc_get, assoc_put, lemma_assoc_get_step, lemma_assoc_put_get, table_get, table_put,
    table_view,
};

verus! {

/// One override entry: either the sentinel admitting every package (the
/// string it carries is free-form), or an explicit set of package names.
#[derive(Clone, Debug, PartialEq)]
pub enum OverrideEntry {
    All(String),
    Packages(Vec<String>),
}

/// Mathematical image of an `OverrideEntry`.
pub enum OverrideEntryV {
    All(Seq<char>),
    Packages(Seq<Seq<char>>),
}

impl View for OverrideEntry {
    type V = OverrideEntryV;

    open spec fn view(&self) -> OverrideEntryV {
        match self {
            OverrideEntry::All(s) => OverrideEntryV::All(s@),
            OverrideEntry::Packages(ps) => OverrideEntryV::Packages(
                ps@.map_values(|p: String| p@),
            ),
        }
    }
}

/// broken-capability → entry.
#[derive(Clone, Debug, PartialEq)]
pub struct PackageOverrides {
    pub entries: Vec<(String, OverrideEntry)>,
}

impl View for PackageOverrides {
    type V = Seq<(Seq<char>, OverrideEntryV)>;

    open spec fn view(&self) -> Seq<(Seq<char>, OverrideEntryV)> {
        table_view(self.entries@)
    }
}

/// arch → broken-capability → entry.
#[derive(Clone, Debug, PartialEq)]
pub struct ReleaseOverrides {
    pub entries: Vec<(String, PackageOverrides)>,
}

impl View for ReleaseOverrides {
    type V = Seq<(Seq<char>, Seq<(Seq<char>, OverrideEntryV)>)>;

    open spec fn view(&self) -> Seq<(Seq<char>, Seq<(Seq<char>, OverrideEntryV)>)> {
        table_view(self.entries@)
    }
}

/// release → arch → broken-capability → entry.
#[derive(Clone, Debug, PartialEq)]
pub struct OverrideValues {
    pub entries: Vec<(String, ReleaseOverrides)>,
}

impl View for OverrideValues {
    type V = Seq<(Seq<char>, Seq<(Seq<char>, Seq<(Seq<char>, OverrideEntryV)>)>)>;

    open spec fn view(&self) -> Seq<
        (Seq<char>, Seq<(Seq<char>, Seq<(Seq<char>, OverrideEntryV)>)>),
    > {
        table_view(self.entries@)
    }
}

/// The override tree together with the hit counter of every leaf path.
#[derive(Clone, Debug, PartialEq)]
pub struct Overrides {
    pub data: OverrideValues,
    pub stats: Vec<(String, u32)>,
}

/// Mathematical image of `Overrides`.
pub struct OverridesV {
    pub data: Seq<(Seq<char>, Seq<(Seq<char>, Seq<(Seq<char>, OverrideEntryV)>)>)>,
    pub stats: Seq<(Seq<char>, u32)>,
}

impl View for Overrides {
    type V = OverridesV;

    open spec fn view(&self) -> OverridesV {
        OverridesV { data: self.data@, stats: table_view(self.stats@) }
    }
}

/// The literal `all`, the wildcard release and arch key and the sentinel
/// leaf component.
pub open spec fn all_lit() -> Seq<char> {
    seq!['a', 'l', 'l']
}

/// The path of an override leaf: the four components joined with `/`.
pub open spec fn path_view(
    release: Seq<char>,
    arch: Seq<char>,
    broken: Seq<char>,
    package: Seq<char>,
) -> Seq<char> {
    release + seq!['/'] + arch + seq!['/'] + broken + seq!['/'] + package
}

/// Write an override path as `release/arch/broken/package`.
pub fn opath_to_str(release: &str, arch: &str, broken: &str, package: &str) -> (r: String)
    ensures
        r@ == path_view(release@, arch@, broken@, package@),
{
    proof {
        reveal_strlit("/");
        assert("/"@ =~= seq!['/']);
    }
    let mut s = String::from_str(release);
    s.append("/");
    s.append(arch);
    s.append("/");
    s.append(broken);
    s.append("/");
    s.append(package);
    proof {
        assert(s@ =~= path_view(release@, arch@, broken@, package@));
    }
    s
}

/// The entry admits this package: sentinels admit every package, explicit
/// sets admit their members.
pub open spec fn entry_matches(e: OverrideEntryV, package: Seq<char>) -> bool {
    match e {
        OverrideEntryV::All(_) => true,
        OverrideEntryV::Packages(ps) => ps.contains(package),
    }
}

/// One table of the hierarchy matches: its `broken` entry, if any, admits
/// the package.
pub open spec fn table_matches(
    t: Seq<(Seq<char>, OverrideEntryV)>,
    broken: Seq<char>,
    package: Seq<char>,
) -> bool {
    match assoc_get(t, broken) {
        Some(e) => entry_matches(e, package),
        None => false,
    }
}

/// The fourth path component of the leaf that matched: `all` under a
/// sentinel entry, the package itself under an explicit set.
pub open spec fn leaf_component(
    t: Seq<(Seq<char>, OverrideEntryV)>,
    broken: Seq<char>,
    package: Seq<char>,
) -> Seq<char> {
    match assoc_get(t, broken) {
        Some(OverrideEntryV::All(_)) => all_lit(),
        _ => package,
    }
}

/// Check one table; returns whether it matches and whether the matched
/// entry was the sentinel.
fn check_table(t: &PackageOverrides, broken: &str, package: &str) -> (r: (bool, bool))
    ensures
        r.0 == table_matches(t@, broken@, package@),
        r.0 ==> r.1 == (assoc_get(t@, broken@) matches Some(OverrideEntryV::All(_))),
        r.0 && r.1 ==> leaf_component(t@, broken@, package@) == all_lit(),
        r.0 && !r.1 ==> leaf_component(t@, broken@, package@) == package@,
{
    match table_get(&t.entries, broken) {
        Some(entry) => {
            match entry {
                OverrideEntry::All(_) => (true, true),
                OverrideEntry::Packages(ps) => {
                    let m = crate::data::contains_string(ps, package);
                    (m, false)
                },
            }
        },
        None => (false, false),
    }
}

/// The data views of the four-level tree, by level.
pub open spec fn release_table(
    data: Seq<(Seq<char>, Seq<(Seq<char>, Seq<(Seq<char>, OverrideEntryV)>)>)>,
    release: Seq<char>,
) -> Option<Seq<(Seq<char>, Seq<(Seq<char>, OverrideEntryV)>)>> {
    assoc_get(data, release)
}

/// The broken-capability table under one release and arch key, if present.
pub open spec fn arch_table(
    data: Seq<(Seq<char>, Seq<(Seq<char>, Seq<(Seq<char>, OverrideEntryV)>)>)>,
    release: Seq<char>,
    arch: Seq<char>,
) -> Option<Seq<(Seq<char>, OverrideEntryV)>> {
    match release_table(data, release) {
        Some(t) => assoc_get(t, arch),
        None => None,
    }
}

/// All six branches the engine consults exist: the wildcard release and the
/// queried release, each with the wildcard arch and the queried arch.
pub open spec fn branches_present(
    data: Seq<(Seq<char>, Seq<(Seq<char>, Seq<(Seq<char>, OverrideEntryV)>)>)>,
    release: Seq<char>,
    arch: Seq<char>,
) -> bool {
    &&& release_table(data, all_lit()) is Some
    &&& arch_table(data, all_lit(), all_lit()) is Some
    &&& arch_table(data, all_lit(), arch) is Some
    &&& release_table(data, release) is Some
    &&& arch_table(data, release, all_lit()) is Some
    &&& arch_table(data, release, arch) is Some
}

/// The first matching table in most-specific-first order —
/// release/arch, release/all, all/arch, all/all — as the release key, arch
/// key, and leaf component of the matched leaf; `None` where no table
/// matches.
pub open spec fn lookup_match(
    data: Seq<(Seq<char>, Seq<(Seq<char>, Seq<(Seq<char>, OverrideEntryV)>)>)>,
    release: Seq<char>,
    arch: Seq<char>,
    package: Seq<char>,
    broken: Seq<char>,
) -> Option<(Seq<char>, Seq<char>, Seq<char>)> {
    let rr_aa = arch_table(data, release, arch).unwrap();
    let rr_all = arch_table(data, release, all_lit()).unwrap();
    let aa_ar = arch_table(data, all_lit(), arch).unwrap();
    let aa_all = arch_table(data, all_lit(), all_lit()).unwrap();
    if table_matches(rr_aa, broken, package) {
        Some((release, arch, leaf_component(rr_aa, broken, package)))
    } else if table_matches(rr_all, broken, package) {
        Some((release, all_lit(), leaf_component(rr_all, broken, package)))
    } else if table_matches(aa_ar, broken, package) {
        Some((all_lit(), arch, leaf_component(aa_ar, broken, package)))
    } else if table_matches(aa_all, broken, package) {
        Some((all_lit(), all_lit(), leaf_component(aa_all, broken, package)))
    } else {
        None
    }
}

/// The stats after one lookup: where the engine matches, the matched
/// leaf's counter bumped; unchanged otherwise.
pub open spec fn lookup_bump(
    data: Seq<(Seq<char>, Seq<(Seq<char>, Seq<(Seq<char>, OverrideEntryV)>)>)>,
    release: Seq<char>,
    arch: Seq<char>,
    package: Seq<char>,
    broken: Seq<char>,
    stats: Seq<(Seq<char>, u32)>,
) -> Seq<(Seq<char>, u32)> {
    if branches_present(data, release, arch) {
        match lookup_match(data, release, arch, package, broken) {
            Some(m) => bump_stat(stats, path_view(m.0, m.1, broken, m.2)),
            None => stats,
        }
    } else {
        stats
    }
}

/// A counter incremented, saturating at the greatest `u32`.
pub open spec fn sat_inc(c: u32) -> u32 {
    if c < 0xffff_ffffu32 {
        (c + 1) as u32
    } else {
        c
    }
}

/// The stats table with the counter at `path` incremented, or seeded with
/// `1` where `path` is missing.
pub open spec fn bump_stat(stats: Seq<(Seq<char>, u32)>, path: Seq<char>) -> Seq<
    (Seq<char>, u32),
> {
    match assoc_get(stats, path) {
        Some(c) => assoc_put(stats, path, sat_inc(c)),
        None => assoc_put(stats, path, 1u32),
    }
}

/// Increment the counter at `path`.
fn bump_stat_exec(stats: &mut Vec<(String, u32)>, path: String)
    ensures
        table_view(final(stats)@) == bump_stat(table_view(old(stats)@), path@),
{
    let current: Option<u32> = match table_get(stats, path.as_str()) {
        Some(c) => Some(*c),
        None => None,
    };
    let next: u32 = match current {
        Some(c) => {
            if c < 0xffff_ffff {
                c + 1
            } else {
                c
            }
        },
        None => 1,
    };
    table_put(stats, path, next);
}

impl Overrides {
    /// Decide whether `(release, arch, package, broken)` is suppressed,
    /// consulting the four tables most specific first; on the first match
    /// the matched leaf's hit counter is incremented and the call returns
    /// true. A missing release or arch branch suppresses nothing and
    /// changes nothing. The override data itself never changes.
    pub fn lookup(&mut self, release: &str, arch: &str, package: &str, broken: &str) -> (r: bool)
        ensures
            final(self).data == old(self).data,
            r == (branches_present(old(self)@.data, release@, arch@) && lookup_match(
                old(self)@.data,
                release@,
                arch@,
                package@,
                broken@,
            ) is Some),
            table_view(final(self).stats@) == lookup_bump(
                old(self)@.data,
                release@,
                arch@,
                package@,
                broken@,
                table_view(old(self).stats@),
            ),
    {
        proof {
            reveal_strlit("all");
            assert("all"@ =~= all_lit());
        }
        let all_release = match table_get(&self.data.entries, "all") {
            Some(t) => t,
            None => {
                return false;
            },
        };
        let all_release_all_arch = match table_get(&all_release.entries, "all") {
            Some(t) => t,
            None => {
                return false;
            },
        };
        let all_release_per_arch = match table_get(&all_release.entries, arch) {
            Some(t) => t,
            None => {
                return false;
            },
        };
        let per_release = match table_get(&self.data.entries, release) {
            Some(t) => t,
            None => {
                return false;
            },
        };
        let per_release_all_arch = match table_get(&per_release.entries, "all") {
            Some(t) => t,
            None => {
                return false;
            },
        };
        let per_release_per_arch = match table_get(&per_release.entries, arch) {
            Some(t) => t,
            None => {
                return false;
            },
        };

        let checked = check_table(per_release_per_arch, broken, package);
        if checked.0 {
            let leaf = if checked.1 {
                "all"
            } else {
                package
            };
            let path = opath_to_str(release, arch, broken, leaf);
            bump_stat_exec(&mut self.stats, path);
            return true;
        }

        let checked = check_table(per_release_all_arch, broken, package);
        if checked.0 {
            let leaf = if checked.1 {
                "all"
            } else {
                package
            };
            let path = opath_to_str(release, "all", broken, leaf);
            bump_stat_exec(&mut self.stats, path);
            return true;
        }

        let checked = check_table(all_release_per_arch, broken, package);
        if checked.0 {
            let leaf = if checked.1 {
                "all"
            } else {
                package
            };
            let path = opath_to_str("all", arch, broken, leaf);
            bump_stat_exec(&mut self.stats, path);
            return true;
        }

        let checked = check_table(all_release_all_arch, broken, package);
        if checked.0 {
            let leaf = if checked.1 {
                "all"
            } else {
                package
            };
            let path = opath_to_str("all", "all", broken, leaf);
            bump_stat_exec(&mut self.stats, path);
            return true;
        }

        false
    }
}

/// The view of the full override tree.
pub type OverrideDataV = Seq<(Seq<char>, Seq<(Seq<char>, Seq<(Seq<char>, OverrideEntryV)>)>)>;

/// Every leaf path of one entry has a counter: `release/arch/broken/all`
/// for a sentinel, `release/arch/broken/<name>` for each listed name.
pub open spec fn entry_leaves_ok(
    stats: Seq<(Seq<char>, u32)>,
    release: Seq<char>,
    arch: Seq<char>,
    broken: Seq<char>,
    e: OverrideEntryV,
) -> bool {
    match e {
        OverrideEntryV::All(_) => crate::table::has_key(
            stats,
            path_view(release, arch, broken, all_lit()),
        ),
        OverrideEntryV::Packages(ps) => forall|l: int|
            0 <= l < ps.len() ==> crate::table::has_key(
                stats,
                path_view(release, arch, broken, #[trigger] ps[l]),
            ),
    }
}

/// `p` is one of the leaf paths of this entry.
pub open spec fn entry_has_leaf(
    release: Seq<char>,
    arch: Seq<char>,
    broken: Seq<char>,
    e: OverrideEntryV,
    p: Seq<char>,
) -> bool {
    match e {
        OverrideEntryV::All(_) => p == path_view(release, arch, broken, all_lit()),
        OverrideEntryV::Packages(ps) => ps.map_values(
            |q: Seq<char>| path_view(release, arch, broken, q),
        ).contains(p),
    }
}

/// `p` is a structural leaf path of the tree.
pub open spec fn is_leaf_path(data: OverrideDataV, p: Seq<char>) -> bool {
    exists|i: int, j: int, k: int|
        0 <= i < data.len() && 0 <= j < data[i].1.len() && 0 <= k < data[i].1[j].1.len()
            && entry_has_leaf(
            data[i].0,
            data[i].1[j].0,
            (#[trigger] data[i].1[j].1[k]).0,
            data[i].1[j].1[k].1,
            p,
        )
}

/// The leaf paths of the tree entry at `(i2, j2, k2)` all have counters.
pub open spec fn leaf_done(
    stats: Seq<(Seq<char>, u32)>,
    data: OverrideDataV,
    i2: int,
    j2: int,
    k2: int,
) -> bool {
    entry_leaves_ok(
        stats,
        data[i2].0,
        data[i2].1[j2].0,
        data[i2].1[j2].1[k2].0,
        data[i2].1[j2].1[k2].1,
    )
}

pub open spec fn lex3_lt(a: int, b: int, c: int, x: int, y: int, z: int) -> bool {
    a < x || (a == x && (b < y || (b == y && c < z)))
}

/// Every structural leaf path of the tree before position `(i, j, k)` has
/// a counter in `stats`.
pub open spec fn seeded_before(
    stats: Seq<(Seq<char>, u32)>,
    data: OverrideDataV,
    i: int,
    j: int,
    k: int,
) -> bool {
    forall|i2: int, j2: int, k2: int|
        0 <= i2 < data.len() && 0 <= j2 < data[i2].1.len() && 0 <= k2 < data[i2].1[j2].1.len()
            && lex3_lt(i2, j2, k2, i, j, k) ==> #[trigger] leaf_done(stats, data, i2, j2, k2)
}

/// Every structural leaf path of the tree has a counter in `stats`.
pub open spec fn stats_seeded(stats: Seq<(Seq<char>, u32)>, data: OverrideDataV) -> bool {
    seeded_before(stats, data, data.len() as int, 0, 0)
}

proof fn lemma_entry_leaves_ok_put(
    stats: Seq<(Seq<char>, u32)>,
    k: Seq<char>,
    val: u32,
    release: Seq<char>,
    arch: Seq<char>,
    broken: Seq<char>,
    e: OverrideEntryV,
)
    requires
        entry_leaves_ok(stats, release, arch, broken, e),
    ensures
        entry_leaves_ok(assoc_put(stats, k, val), release, arch, broken, e),
{
    match e {
        OverrideEntryV::All(_) => {
            crate::table::lemma_assoc_put_has_key(
                stats,
                k,
                val,
                path_view(release, arch, broken, all_lit()),
            );
        },
        OverrideEntryV::Packages(ps) => {
            assert forall|l: int|
                0 <= l < ps.len() implies crate::table::has_key(
                assoc_put(stats, k, val),
                path_view(release, arch, broken, #[trigger] ps[l]),
            ) by {
                crate::table::lemma_assoc_put_has_key(
                    stats,
                    k,
                    val,
                    path_view(release, arch, broken, ps[l]),
                );
            }
        },
    }
}

proof fn lemma_seeded_before_put(
    stats: Seq<(Seq<char>, u32)>,
    k: Seq<char>,
    val: u32,
    data: OverrideDataV,
    i: int,
    j: int,
    kk: int,
)
    requires
        seeded_before(stats, data, i, j, kk),
    ensures
        seeded_before(assoc_put(stats, k, val), data, i, j, kk),
{
    assert forall|i2: int, j2: int, k2: int|
        0 <= i2 < data.len() && 0 <= j2 < data[i2].1.len() && 0 <= k2 < data[i2].1[j2].1.len()
            && lex3_lt(i2, j2, k2, i, j, kk) implies #[trigger] leaf_done(
        assoc_put(stats, k, val),
        data,
        i2,
        j2,
        k2,
    ) by {
        assert(leaf_done(stats, data, i2, j2, k2));
        lemma_entry_leaves_ok_put(
            stats,
            k,
            val,
            data[i2].0,
            data[i2].1[j2].0,
            data[i2].1[j2].1[k2].0,
            data[i2].1[j2].1[k2].1,
        );
    }
}

proof fn lemma_assoc_put_zeros(s: Seq<(Seq<char>, u32)>, k: Seq<char>)
    requires
        forall|m: int| 0 <= m < s.len() ==> (#[trigger] s[m]).1 == 0,
    ensures
        forall|m: int|
            0 <= m < assoc_put(s, k, 0u32).len() ==> (#[trigger] assoc_put(s, k, 0u32)[m]).1 == 0,
    decreases s.len(),
{
    let p = assoc_put(s, k, 0u32);
    if s.len() == 0 {
        assert(p =~= seq![(k, 0u32)]);
    } else if s[0].0 == k {
        assert(forall|m: int| 0 < m < p.len() ==> p[m] == s.subrange(1, s.len() as int)[m - 1]);
        assert(forall|m: int|
            0 <= m < s.subrange(1, s.len() as int).len() ==> (#[trigger] s.subrange(
                1,
                s.len() as int,
            )[m]).1 == 0);
    } else {
        let t = s.subrange(1, s.len() as int);
        assert(forall|m: int| 0 <= m < t.len() ==> (#[trigger] t[m]).1 == 0);
        lemma_assoc_put_zeros(t, k);
        assert(forall|m: int| 0 < m < p.len() ==> p[m] == assoc_put(t, k, 0u32)[m - 1]);
    }
}

impl Overrides {
    /// Build the engine from a loaded tree, seeding the hit counters: every
    /// structural leaf path `release/arch/broken/<package-or-all>` gets a
    /// counter, and every counter starts at zero.
    pub fn new(data: OverrideValues) -> (r: Overrides)
        ensures
            r.data == data,
            stats_seeded(r@.stats, data@),
            forall|m: int| 0 <= m < r@.stats.len() ==> (#[trigger] r@.stats[m]).1 == 0,
            forall|m: int|
                0 <= m < r@.stats.len() ==> is_leaf_path(data@, (#[trigger] r@.stats[m]).0),
    {
        let ghost dv: OverrideDataV = data@;
        let mut stats: Vec<(String, u32)> = Vec::new();
        let mut i: usize = 0;
        while i < data.entries.len()
            invariant
                0 <= i <= data.entries@.len(),
                dv == data@,
                dv.len() == data.entries@.len(),
                seeded_before(table_view(stats@), dv, i as int, 0, 0),
                forall|m: int|
                    0 <= m < table_view(stats@).len() ==> (#[trigger] table_view(stats@)[m]).1
                        == 0,
                forall|m: int|
                    0 <= m < table_view(stats@).len() ==> is_leaf_path(
                        dv,
                        (#[trigger] table_view(stats@)[m]).0,
                    ),
            decreases data.entries@.len() - i,
        {
            let release_pair = &data.entries[i];
            let ghost arches = dv[i as int].1;
            proof {
                assert(dv[i as int] == (release_pair.0@, release_pair.1@));
            }
            let mut j: usize = 0;
            while j < release_pair.1.entries.len()
                invariant
                    0 <= i < dv.len(),
                    0 <= j <= release_pair.1.entries@.len(),
                    dv == data@,
                    arches == dv[i as int].1,
                    release_pair.0@ == dv[i as int].0,
                    release_pair.1@ == arches,
                    arches.len() == release_pair.1.entries@.len(),
                    seeded_before(table_view(stats@), dv, i as int, j as int, 0),
                    forall|m: int|
                        0 <= m < table_view(stats@).len() ==> (#[trigger] table_view(stats@)[m]).1
                            == 0,
                    forall|m: int|
                        0 <= m < table_view(stats@).len() ==> is_leaf_path(
                            dv,
                            (#[trigger] table_view(stats@)[m]).0,
                        ),
                decreases release_pair.1.entries@.len() - j,
            {
                let arch_pair = &release_pair.1.entries[j];
                let ghost brokens = arches[j as int].1;
                proof {
                    assert(arches[j as int] == (arch_pair.0@, arch_pair.1@));
                }
                let mut k: usize = 0;
                while k < arch_pair.1.entries.len()
                    invariant
                        0 <= i < dv.len(),
                        0 <= j < dv[i as int].1.len(),
                        0 <= k <= arch_pair.1.entries@.len(),
                        dv == data@,
                        arches == dv[i as int].1,
                        brokens == arches[j as int].1,
                        release_pair.0@ == dv[i as int].0,
                        arch_pair.0@ == arches[j as int].0,
                        arch_pair.1@ == brokens,
                        brokens.len() == arch_pair.1.entries@.len(),
                        seeded_before(table_view(stats@), dv, i as int, j as int, k as int),
                        forall|m: int|
                            0 <= m < table_view(stats@).len() ==> (#[trigger] table_view(
                                stats@,
                            )[m]).1 == 0,
                        forall|m: int|
                            0 <= m < table_view(stats@).len() ==> is_leaf_path(
                                dv,
                                (#[trigger] table_view(stats@)[m]).0,
                            ),
                    decreases arch_pair.1.entries@.len() - k,
                {
                    let broken_pair = &arch_pair.1.entries[k];
                    proof {
                        assert(brokens[k as int] == (broken_pair.0@, broken_pair.1@));
                    }
                    match &broken_pair.1 {
                        OverrideEntry::All(_) => {
                            let path = opath_to_str(
                                release_pair.0.as_str(),
                                arch_pair.0.as_str(),
                                broken_pair.0.as_str(),
                                "all",
                            );
                            proof {
                                reveal_strlit("all");
                                assert("all"@ =~= all_lit());
                            }
                            let ghost s_old = table_view(stats@);
                            let ghost path_v = path@;
                            table_put(&mut stats, path, 0);
                            proof {
                                lemma_seeded_before_put(
                                    s_old,
                                    path_v,
                                    0u32,
                                    dv,
                                    i as int,
                                    j as int,
                                    k as int,
                                );
                                lemma_assoc_put_zeros(s_old, path_v);
                                crate::table::lemma_assoc_put_has_key(s_old, path_v, 0u32, path_v);
                                assert(leaf_done(table_view(stats@), dv, i as int, j as int, k as int));
                                assert(entry_has_leaf(
                                    dv[i as int].0,
                                    arches[j as int].0,
                                    brokens[k as int].0,
                                    brokens[k as int].1,
                                    path_v,
                                ));
                                assert(is_leaf_path(dv, path_v));
                                crate::table::lemma_assoc_put_keys(s_old, path_v, 0u32);
                            }
                        },
                        OverrideEntry::Packages(ps) => {
                            let ghost psv = ps@.map_values(|p: String| p@);
                            let mut l: usize = 0;
                            while l < ps.len()
                                invariant
                                    0 <= i < dv.len(),
                                    0 <= j < dv[i as int].1.len(),
                                    0 <= k < dv[i as int].1[j as int].1.len(),
                                    0 <= l <= ps@.len(),
                                    dv == data@,
                                    arches == dv[i as int].1,
                                    brokens == arches[j as int].1,
                                    release_pair.0@ == dv[i as int].0,
                                    arch_pair.0@ == arches[j as int].0,
                                    broken_pair.0@ == brokens[k as int].0,
                                    psv == ps@.map_values(|p: String| p@),
                                    brokens[k as int].1 == OverrideEntryV::Packages(psv),
                                    psv.len() == ps@.len(),
                                    seeded_before(
                                        table_view(stats@),
                                        dv,
                                        i as int,
                                        j as int,
                                        k as int,
                                    ),
                                    forall|l2: int|
                                        0 <= l2 < l ==> crate::table::has_key(
                                            table_view(stats@),
                                            path_view(
                                                dv[i as int].0,
                                                arches[j as int].0,
                                                brokens[k as int].0,
                                                #[trigger] psv[l2],
                                            ),
                                        ),
                                    forall|m: int|
                                        0 <= m < table_view(stats@).len() ==> (
                                        #[trigger] table_view(stats@)[m]).1 == 0,
                                    forall|m: int|
                                        0 <= m < table_view(stats@).len() ==> is_leaf_path(
                                            dv,
                                            (#[trigger] table_view(stats@)[m]).0,
                                        ),
                                decreases ps@.len() - l,
                            {
                                let path = opath_to_str(
                                    release_pair.0.as_str(),
                                    arch_pair.0.as_str(),
                                    broken_pair.0.as_str(),
                                    ps[l].as_str(),
                                );
                                let ghost s_old = table_view(stats@);
                                let ghost path_v = path@;
                                proof {
                                    assert(psv[l as int] == ps@[l as int]@);
                                }
                                table_put(&mut stats, path, 0);
                                proof {
                                    lemma_seeded_before_put(
                                        s_old,
                                        path_v,
                                        0u32,
                                        dv,
                                        i as int,
                                        j as int,
                                        k as int,
                                    );
                                    lemma_assoc_put_zeros(s_old, path_v);
                                    assert(entry_has_leaf(
                                        dv[i as int].0,
                                        arches[j as int].0,
                                        brokens[k as int].0,
                                        brokens[k as int].1,
                                        path_v,
                                    )) by {
                                        assert(brokens[k as int].1 == OverrideEntryV::Packages(
                                            psv,
                                        ));
                                        let mapped = psv.map_values(
                                            |q: Seq<char>|
                                                path_view(
                                                    dv[i as int].0,
                                                    arches[j as int].0,
                                                    brokens[k as int].0,
                                                    q,
                                                ),
                                        );
                                        assert(mapped[l as int] == path_v);
                                        assert(mapped.contains(path_v));
                                    }
                                    assert(is_leaf_path(dv, path_v));
                                    crate::table::lemma_assoc_put_keys(s_old, path_v, 0u32);
                                    assert forall|l2: int| 0 <= l2 < l + 1 implies crate::table::has_key(
                                        table_view(stats@),
                                        path_view(
                                            dv[i as int].0,
                                            arches[j as int].0,
                                            brokens[k as int].0,
                                            #[trigger] psv[l2],
                                        ),
                                    ) by {
                                        crate::table::lemma_assoc_put_has_key(
                                            s_old,
                                            path_v,
                                            0u32,
                                            path_view(
                                                dv[i as int].0,
                                                arches[j as int].0,
                                                brokens[k as int].0,
                                                psv[l2],
                                            ),
                                        );
                                    }
                                }
                                l = l + 1;
                            }
                            proof {
                                assert(leaf_done(table_view(stats@), dv, i as int, j as int, k as int));
                            }
                        },
                    }
                    k = k + 1;
                }
                j = j + 1;
            }
            i = i + 1;
        }
        Overrides { data, stats }
    }
}

/// The sum of all hit counters.
pub open spec fn sum_stats(stats: Seq<(Seq<char>, u32)>) -> int
    decreases stats.len(),
{
    if stats.len() == 0 {
        0
    } else {
        stats[0].1 + sum_stats(stats.subrange(1, stats.len() as int))
    }
}

/// Freshly seeded counters sum to zero.
pub proof fn lemma_sum_stats_zero(stats: Seq<(Seq<char>, u32)>)
    requires
        forall|m: int| 0 <= m < stats.len() ==> (#[trigger] stats[m]).1 == 0,
    ensures
        sum_stats(stats) == 0,
    decreases stats.len(),
{
    if stats.len() > 0 {
        let t = stats.subrange(1, stats.len() as int);
        assert(forall|m: int| 0 <= m < t.len() ==> (#[trigger] t[m]) == stats[m + 1]);
        lemma_sum_stats_zero(t);
    }
}

/// One bump raises the sum of the counters by exactly one, as long as the
/// bumped counter has not saturated.
pub proof fn lemma_bump_stat_sum(stats: Seq<(Seq<char>, u32)>, path: Seq<char>)
    requires
        match assoc_get(stats, path) {
            Some(c) => c < 0xffff_ffffu32,
            None => true,
        },
    ensures
        sum_stats(bump_stat(stats, path)) == sum_stats(stats) + 1,
    decreases stats.len(),
{
    let p = bump_stat(stats, path);
    if stats.len() == 0 {
        assert(p =~= seq![(path, 1u32)]);
        assert(p.subrange(1, 1) =~= Seq::<(Seq<char>, u32)>::empty());
        assert(sum_stats(p) == p[0].1 + sum_stats(p.subrange(1, 1)));
        assert(p[0].1 == 1u32);
    } else {
        lemma_assoc_get_step(stats, path);
        let t = stats.subrange(1, stats.len() as int);
        assert(sum_stats(stats) == stats[0].1 + sum_stats(t));
        if stats[0].0 == path {
            let c = stats[0].1;
            assert(p =~= seq![(path, sat_inc(c))] + t);
            assert(p[0] == (path, sat_inc(c)));
            assert(p.subrange(1, p.len() as int) =~= t);
            assert(sum_stats(p) == p[0].1 + sum_stats(t));
            assert(sat_inc(c) == c + 1);
        } else {
            lemma_bump_stat_sum(t, path);
            let v = match assoc_get(stats, path) {
                Some(c) => sat_inc(c),
                None => 1u32,
            };
            assert(p == seq![stats[0]] + assoc_put(t, path, v));
            assert(bump_stat(t, path) == assoc_put(t, path, v));
            assert(p[0] == stats[0]);
            assert(p.subrange(1, p.len() as int) =~= assoc_put(t, path, v));
            assert(sum_stats(p) == p[0].1 + sum_stats(p.subrange(1, p.len() as int)));
            assert(sum_stats(assoc_put(t, path, v)) == sum_stats(t) + 1);
        }
    }
}

/// Stats law: a lookup that suppresses raises the sum of the counters by
/// exactly one, and one that does not leaves the stats unchanged — so
/// after `N` suppressing lookups the counters, seeded at zero, sum to `N`.
/// The counters must not have saturated.
pub proof fn lemma_lookup_bump_sum(
    data: Seq<(Seq<char>, Seq<(Seq<char>, Seq<(Seq<char>, OverrideEntryV)>)>)>,
    release: Seq<char>,
    arch: Seq<char>,
    package: Seq<char>,
    broken: Seq<char>,
    stats: Seq<(Seq<char>, u32)>,
)
    requires
        forall|m: int| 0 <= m < stats.len() ==> (#[trigger] stats[m]).1 < 0xffff_ffffu32,
    ensures
        !(branches_present(data, release, arch) && lookup_match(
            data,
            release,
            arch,
            package,
            broken,
        ) is Some) ==> lookup_bump(data, release, arch, package, broken, stats) == stats,
        branches_present(data, release, arch) && lookup_match(
            data,
            release,
            arch,
            package,
            broken,
        ) is Some ==> sum_stats(lookup_bump(data, release, arch, package, broken, stats))
            == sum_stats(stats) + 1,
{
    if branches_present(data, release, arch) {
        match lookup_match(data, release, arch, package, broken) {
            Some(m) => {
                let path = path_view(m.0, m.1, broken, m.2);
                crate::table::lemma_key_index_bounds(stats, path);
                lemma_bump_stat_sum(stats, path);
            },
            None => {
            },
        }
    }
}

/// Specificity law: where both the queried `release/arch` table and the
/// `all/all` table admit `(package, broken)`, the lookup matches the
/// `release/arch` leaf — its counter is the one raised, and the `all/all`
/// leaf's counter is unchanged. The release and arch keys must hold no `/`
/// and not both be `all`, which keeps the two leaf paths distinct.
pub proof fn lemma_override_specificity(
    o: OverridesV,
    release: Seq<char>,
    arch: Seq<char>,
    package: Seq<char>,
    broken: Seq<char>,
)
    requires
        branches_present(o.data, release, arch),
        table_matches(arch_table(o.data, release, arch).unwrap(), broken, package),
        table_matches(arch_table(o.data, all_lit(), all_lit()).unwrap(), broken, package),
        !release.contains('/'),
        !arch.contains('/'),
        release != all_lit() || arch != all_lit(),
    ensures
        ({
            let rr = arch_table(o.data, release, arch).unwrap();
            let aa = arch_table(o.data, all_lit(), all_lit()).unwrap();
            let spath = path_view(release, arch, broken, leaf_component(rr, broken, package));
            let apath = path_view(
                all_lit(),
                all_lit(),
                broken,
                leaf_component(aa, broken, package),
            );
            &&& lookup_match(o.data, release, arch, package, broken) == Some(
                (release, arch, leaf_component(rr, broken, package)),
            )
            &&& assoc_get(bump_stat(o.stats, spath), apath) == assoc_get(o.stats, apath)
            &&& assoc_get(bump_stat(o.stats, spath), spath) == Some(
                match assoc_get(o.stats, spath) {
                    Some(c) => sat_inc(c),
                    None => 1u32,
                },
            )
        }),
{
    let rr = arch_table(o.data, release, arch).unwrap();
    let aa = arch_table(o.data, all_lit(), all_lit()).unwrap();
    let leaf1 = leaf_component(rr, broken, package);
    let leaf2 = leaf_component(aa, broken, package);
    let spath = path_view(release, arch, broken, leaf1);
    let apath = path_view(all_lit(), all_lit(), broken, leaf2);

    assert(!all_lit().contains('/')) by {
        assert(forall|i: int| 0 <= i < all_lit().len() ==> all_lit()[i] != '/') by {
            assert(all_lit()[0] == 'a');
            assert(all_lit()[1] == 'l');
            assert(all_lit()[2] == 'l');
        }
    }

    assert(spath != apath) by {
        if spath == apath {
            let rest1 = arch + seq!['/'] + broken + seq!['/'] + leaf1;
            let rest2 = all_lit() + seq!['/'] + broken + seq!['/'] + leaf2;
            assert(spath =~= release + seq!['/'] + rest1);
            assert(apath =~= all_lit() + seq!['/'] + rest2);
            crate::text::lemma_sep_injective(release, rest1, all_lit(), rest2, '/');
            assert(release == all_lit());
            let tail1 = broken + seq!['/'] + leaf1;
            let tail2 = broken + seq!['/'] + leaf2;
            assert(rest1 =~= arch + seq!['/'] + tail1);
            assert(rest2 =~= all_lit() + seq!['/'] + tail2);
            crate::text::lemma_sep_injective(arch, tail1, all_lit(), tail2, '/');
            assert(arch == all_lit());
        }
    }

    let v = match assoc_get(o.stats, spath) {
        Some(c) => sat_inc(c),
        None => 1u32,
    };
    assert(bump_stat(o.stats, spath) == assoc_put(o.stats, spath, v));
    lemma_assoc_put_get(o.stats, spath, v, apath);
}

} // verus!
