use repochecker::overrides::{
    opath_to_str, OverrideEntry, OverrideValues, Overrides, PackageOverrides, ReleaseOverrides,
};

fn package_table(entries: Vec<(&str, OverrideEntry)>) -> PackageOverrides {
    PackageOverrides {
        entries: entries.into_iter().map(|(k, v)| (String::from(k), v)).collect(),
    }
}

fn release_table(entries: Vec<(&str, PackageOverrides)>) -> ReleaseOverrides {
    ReleaseOverrides {
        entries: entries.into_iter().map(|(k, v)| (String::from(k), v)).collect(),
    }
}

fn tree(entries: Vec<(&str, ReleaseOverrides)>) -> OverrideValues {
    OverrideValues {
        entries: entries.into_iter().map(|(k, v)| (String::from(k), v)).collect(),
    }
}

/// The overrides of the suppression scenario: a global sentinel for
/// `gstreamer-plugins-good`, and empty branch tables elsewhere.
fn scenario_tree() -> OverrideValues {
    tree(vec![
        (
            "all",
            release_table(vec![
                (
                    "all",
                    package_table(vec![(
                        "gstreamer-plugins-good",
                        OverrideEntry::All(String::from("all")),
                    )]),
                ),
                ("x86_64", package_table(vec![])),
            ]),
        ),
        (
            "f32",
            release_table(vec![("all", package_table(vec![])), ("x86_64", package_table(vec![]))]),
        ),
    ])
}

#[test]
fn stats_seeded_with_zeroes() {
    let overrides = Overrides::new(scenario_tree());
    assert_eq!(overrides.stats.len(), 1);
    assert_eq!(overrides.stats[0].0, "all/all/gstreamer-plugins-good/all");
    assert_eq!(overrides.stats[0].1, 0);
}

#[test]
fn lookup_counts_each_hit() {
    let mut overrides = Overrides::new(scenario_tree());
    for n in 1..4u32 {
        assert!(overrides.lookup("f32", "x86_64", "anchorman", "gstreamer-plugins-good"));
        let total: u64 = overrides.stats.iter().map(|(_, c)| u64::from(*c)).sum();
        assert_eq!(total, u64::from(n));
    }
}

#[test]
fn lookup_without_match_changes_nothing() {
    let mut overrides = Overrides::new(scenario_tree());
    assert!(!overrides.lookup("f32", "x86_64", "anchorman", "libfoo.so"));
    let total: u64 = overrides.stats.iter().map(|(_, c)| u64::from(*c)).sum();
    assert_eq!(total, 0);
}

#[test]
fn lookup_with_missing_branch_suppresses_nothing() {
    let mut overrides = Overrides::new(scenario_tree());
    // The tree has no aarch64 arch branch: misconfiguration degrades to
    // no suppression.
    assert!(!overrides.lookup("f32", "aarch64", "anchorman", "gstreamer-plugins-good"));
}

#[test]
fn specific_leaf_wins_over_generic() {
    let data = tree(vec![
        (
            "all",
            release_table(vec![
                (
                    "all",
                    package_table(vec![(
                        "libdep.so",
                        OverrideEntry::Packages(vec![String::from("pkg")]),
                    )]),
                ),
                ("x86_64", package_table(vec![])),
            ]),
        ),
        (
            "f32",
            release_table(vec![
                ("all", package_table(vec![])),
                (
                    "x86_64",
                    package_table(vec![(
                        "libdep.so",
                        OverrideEntry::Packages(vec![String::from("pkg")]),
                    )]),
                ),
            ]),
        ),
    ]);
    let mut overrides = Overrides::new(data);
    assert!(overrides.lookup("f32", "x86_64", "pkg", "libdep.so"));
    let specific = opath_to_str("f32", "x86_64", "libdep.so", "pkg");
    let generic = opath_to_str("all", "all", "libdep.so", "pkg");
    let count_of = |path: &str| {
        overrides
            .stats
            .iter()
            .find(|(p, _)| p == path)
            .map(|(_, c)| *c)
            .unwrap()
    };
    assert_eq!(count_of(&specific), 1);
    assert_eq!(count_of(&generic), 0);
}

#[test]
fn middle_tables_match_in_order() {
    // The release/all table carries the entry; release/arch and all/arch
    // are empty, so the release/all leaf is the one counted.
    let data = tree(vec![
        (
            "all",
            release_table(vec![("all", package_table(vec![])), ("x86_64", package_table(vec![]))]),
        ),
        (
            "f32",
            release_table(vec![
                (
                    "all",
                    package_table(vec![("libdep.so", OverrideEntry::All(String::from("all")))]),
                ),
                ("x86_64", package_table(vec![])),
            ]),
        ),
    ]);
    let mut overrides = Overrides::new(data);
    assert!(overrides.lookup("f32", "x86_64", "pkg", "libdep.so"));
    let leaf = opath_to_str("f32", "all", "libdep.so", "all");
    let hit = overrides.stats.iter().find(|(p, _)| *p == leaf).map(|(_, c)| *c);
    assert_eq!(hit, Some(1));
}

#[test]
fn explicit_set_rejects_other_packages() {
    let data = tree(vec![
        (
            "all",
            release_table(vec![
                (
                    "all",
                    package_table(vec![(
                        "libdep.so",
                        OverrideEntry::Packages(vec![String::from("listed")]),
                    )]),
                ),
                ("x86_64", package_table(vec![])),
            ]),
        ),
        (
            "f32",
            release_table(vec![("all", package_table(vec![])), ("x86_64", package_table(vec![]))]),
        ),
    ]);
    let mut overrides = Overrides::new(data);
    assert!(overrides.lookup("f32", "x86_64", "listed", "libdep.so"));
    assert!(!overrides.lookup("f32", "x86_64", "unlisted", "libdep.so"));
}

#[test]
fn path_formatting() {
    assert_eq!(opath_to_str("f32", "x86_64", "dep", "pkg"), "f32/x86_64/dep/pkg");
}
