use repochecker::config::{
    ArchConfig, Config, ReleaseConfig, ReleaseType, RepoCheckerConfig, RepoConfig,
};
use repochecker::data::BrokenItem;
use repochecker::overrides::{OverrideEntry, OverrideValues, Overrides, PackageOverrides, ReleaseOverrides};
use repochecker::repo::{
    apply_overrides, get_cache_path, get_repo_closure, get_source_map, make_cache_args,
    repoclosure_args, repoquery_args, sort_broken_items,
};
use repochecker::state::{release_key, transfer_since};
use repochecker::templates::{sort_counters_desc, sort_release_stats_desc, sort_strings_desc, Index};
use repochecker::utils::get_json_path;

fn item(source: &str, package: &str, arch: &str, repo_arch: &str, broken: Vec<&str>) -> BrokenItem {
    BrokenItem {
        source: String::from(source),
        package: String::from(package),
        epoch: String::from("0"),
        version: String::from("1.0"),
        release: String::from("1.fc32"),
        arch: String::from(arch),
        admin: String::from("(N/A)"),
        maintainers: vec![],
        repo: String::from("fedora"),
        repo_arch: String::from(repo_arch),
        broken: broken.into_iter().map(String::from).collect(),
        since: None,
    }
}

fn empty_overrides() -> Overrides {
    Overrides::new(OverrideValues { entries: vec![] })
}

fn scenario_overrides() -> Overrides {
    let package_table = |entries: Vec<(&str, OverrideEntry)>| PackageOverrides {
        entries: entries.into_iter().map(|(k, v)| (String::from(k), v)).collect(),
    };
    let release_table = |entries: Vec<(&str, PackageOverrides)>| ReleaseOverrides {
        entries: entries.into_iter().map(|(k, v)| (String::from(k), v)).collect(),
    };
    Overrides::new(OverrideValues {
        entries: vec![
            (
                String::from("all"),
                release_table(vec![
                    (
                        "all",
                        package_table(vec![(
                            "gstreamer-plugins-good",
                            OverrideEntry::All(String::from("all")),
                        )]),
                    ),
                    ("x86_64", package_table(vec![])),
                ]),
            ),
            (
                String::from("f32"),
                release_table(vec![
                    ("all", package_table(vec![])),
                    ("x86_64", package_table(vec![])),
                ]),
            ),
        ],
    })
}

#[test]
fn override_drop_keeps_unsuppressed_capability() {
    let mut overrides = scenario_overrides();
    let input = vec![item(
        "anchorman",
        "anchorman",
        "x86_64",
        "x86_64",
        vec!["gstreamer-plugins-good", "libgstreamer-0.10.so.0()(64bit)"],
    )];
    let published = apply_overrides(&mut overrides, "f32", input);
    assert_eq!(published.len(), 1);
    assert_eq!(published[0].broken, vec![String::from("libgstreamer-0.10.so.0()(64bit)")]);
}

#[test]
fn override_drop_removes_emptied_record() {
    let mut overrides = scenario_overrides();
    let input = vec![item(
        "anchorman",
        "anchorman",
        "x86_64",
        "x86_64",
        vec!["gstreamer-plugins-good"],
    )];
    let published = apply_overrides(&mut overrides, "f32", input);
    assert_eq!(published.len(), 0);
}

#[test]
fn sort_orders_by_source_package_arch() {
    let unsorted = vec![
        item("zlib", "zlib-devel", "x86_64", "x86_64", vec!["d"]),
        item("bash", "bash", "x86_64", "x86_64", vec!["d"]),
        item("bash", "bash", "noarch", "x86_64", vec!["d"]),
        item("bash", "bash-doc", "noarch", "x86_64", vec!["d"]),
    ];
    let sorted = sort_broken_items(unsorted);
    let keys: Vec<(String, String, String)> = sorted
        .iter()
        .map(|i| (i.source.clone(), i.package.clone(), i.arch.clone()))
        .collect();
    assert_eq!(
        keys,
        vec![
            (String::from("bash"), String::from("bash"), String::from("noarch")),
            (String::from("bash"), String::from("bash"), String::from("x86_64")),
            (String::from("bash"), String::from("bash-doc"), String::from("noarch")),
            (String::from("zlib"), String::from("zlib-devel"), String::from("x86_64")),
        ]
    );
}

#[test]
fn source_map_skips_sources_and_later_binary_wins() {
    let contents = repochecker::parse::parse_repoquery(
        "bash bash 0 5.2 1.fc40 x86_64\n\
         bash bash-old 0 5.1 1.fc40 src\n\
         bash bash-new 0 5.2 1.fc40 x86_64",
    )
    .unwrap();
    let map = get_source_map(&contents);
    assert_eq!(map.len(), 1);
    assert_eq!(map[0].0, "bash");
    assert_eq!(map[0].1, "bash-new");
}

#[test]
fn command_lines_match_the_tool_surface() {
    let repos = vec![String::from("fedora"), String::from("updates")];
    assert_eq!(
        make_cache_args("f32", "x86_64", &repos),
        vec![
            "--quiet",
            "--installroot",
            "cache/f32/x86_64",
            "--releasever",
            "f32",
            "--repo",
            "fedora",
            "--repo",
            "updates",
            "--forcearch",
            "x86_64",
            "makecache",
            "--refresh",
        ]
    );
    assert_eq!(
        repoquery_args("f32", "x86_64", &repos),
        vec![
            "--quiet",
            "--installroot",
            "cache/f32/x86_64",
            "--releasever",
            "f32",
            "--repo",
            "fedora",
            "--repo",
            "updates",
            "--forcearch",
            "x86_64",
            "repoquery",
            "--queryformat",
            "%{name} %{source_name} %{epoch} %{version} %{release} %{arch}",
        ]
    );
    let multi = vec![String::from("x86_64"), String::from("i686")];
    assert_eq!(
        repoclosure_args("f32", "x86_64", &repos, &multi, "updates"),
        vec![
            "--quiet",
            "--installroot",
            "cache/f32/x86_64",
            "--releasever",
            "f32",
            "--repo",
            "fedora",
            "--repo",
            "updates",
            "--forcearch",
            "x86_64",
            "repoclosure",
            "--newest",
            "--arch",
            "x86_64",
            "--arch",
            "i686",
            "--check",
            "updates",
        ]
    );
    assert_eq!(get_cache_path("f32", "x86_64"), "cache/f32/x86_64");
}

#[test]
fn excluded_source_record_is_dropped() {
    // Source `foo` builds a binary on x86_64 only; its src-arch closure
    // record on aarch64 is excluded, the one on x86_64 is kept.
    let arches = vec![String::from("x86_64"), String::from("aarch64")];
    let contents = vec![
        String::from("foo-bin foo 0 1.0 1.fc32 x86_64\nfoo foo 0 1.0 1.fc32 src"),
        String::from("foo foo 0 1.0 1.fc32 src"),
    ];
    let closure = String::from(
        "package: foo-1.0-1.fc32.src from fedora\n  unresolved deps:\n    libmissing.so",
    );
    let closures = vec![vec![closure.clone()], vec![closure]];
    let mut overrides = empty_overrides();
    let admins: Vec<(String, String)> = vec![];
    let maintainers: Vec<(String, Vec<String>)> = vec![];
    let published = get_repo_closure(
        "f32",
        &arches,
        &contents,
        &closures,
        &mut overrides,
        &admins,
        &maintainers,
    )
    .unwrap();
    assert_eq!(published.len(), 1);
    assert_eq!(published[0].package, "foo");
    assert_eq!(published[0].repo_arch, "x86_64");
    assert!(!published.iter().any(|i| i.repo_arch == "aarch64"));
}

#[test]
fn joined_record_carries_source_admin_and_maintainers() {
    let arches = vec![String::from("x86_64")];
    let contents = vec![String::from("anchorman-bin anchorman 0 0.0.1 17.fc32 x86_64")];
    let closures = vec![vec![String::from(
        "package: anchorman-bin-0.0.1-17.fc32.x86_64 from fedora\n  unresolved deps:\n    libdep.so",
    )]];
    let mut overrides = empty_overrides();
    let admins = vec![(String::from("anchorman"), String::from("ron"))];
    let maintainers = vec![(
        String::from("anchorman"),
        vec![String::from("ron"), String::from("brick")],
    )];
    let published = get_repo_closure(
        "f32",
        &arches,
        &contents,
        &closures,
        &mut overrides,
        &admins,
        &maintainers,
    )
    .unwrap();
    assert_eq!(published.len(), 1);
    assert_eq!(published[0].source, "anchorman");
    assert_eq!(published[0].admin, "ron");
    assert_eq!(published[0].maintainers, vec![String::from("ron"), String::from("brick")]);
    assert_eq!(published[0].repo, "fedora");
    assert_eq!(published[0].since, None);
}

#[test]
fn unknown_binary_in_closure_fails() {
    let arches = vec![String::from("x86_64")];
    let contents = vec![String::from("bash bash 0 5.2 1.fc40 x86_64")];
    let closures = vec![vec![String::from(
        "package: ghost-1.0-1.fc32.x86_64 from fedora\n  unresolved deps:\n    libdep.so",
    )]];
    let mut overrides = empty_overrides();
    let admins: Vec<(String, String)> = vec![];
    let maintainers: Vec<(String, Vec<String>)> = vec![];
    let result = get_repo_closure(
        "f32",
        &arches,
        &contents,
        &closures,
        &mut overrides,
        &admins,
        &maintainers,
    );
    assert!(result.is_err());
}

#[test]
fn malformed_content_listing_fails() {
    let arches = vec![String::from("x86_64")];
    let contents = vec![String::from("too few fields")];
    let closures = vec![vec![]];
    let mut overrides = empty_overrides();
    let admins: Vec<(String, String)> = vec![];
    let maintainers: Vec<(String, Vec<String>)> = vec![];
    let result = get_repo_closure(
        "f32",
        &arches,
        &contents,
        &closures,
        &mut overrides,
        &admins,
        &maintainers,
    );
    assert!(result.is_err());
}

#[test]
fn closure_outputs_of_all_checked_repos_are_joined() {
    let arches = vec![String::from("x86_64")];
    let contents = vec![String::from(
        "alpha alpha-src 0 1.0 1.fc32 x86_64\nbeta beta-src 0 1.0 1.fc32 x86_64",
    )];
    let closures = vec![vec![
        String::from("package: alpha-1.0-1.fc32.x86_64 from fedora\n  unresolved deps:\n    liba.so"),
        String::from("package: beta-1.0-1.fc32.x86_64 from updates\n  unresolved deps:\n    libb.so"),
    ]];
    let mut overrides = empty_overrides();
    let admins: Vec<(String, String)> = vec![];
    let maintainers: Vec<(String, Vec<String>)> = vec![];
    let published = get_repo_closure(
        "f32",
        &arches,
        &contents,
        &closures,
        &mut overrides,
        &admins,
        &maintainers,
    )
    .unwrap();
    assert_eq!(published.len(), 2);
    assert_eq!(published[0].source, "alpha-src");
    assert_eq!(published[0].repo, "fedora");
    assert_eq!(published[1].source, "beta-src");
    assert_eq!(published[1].repo, "updates");
}

#[test]
fn continuity_keeps_old_stamp_and_stamps_new() {
    let t1: i64 = 1_000;
    let t2: i64 = 1_060;
    let mut old_item = item("bash", "bash", "x86_64", "x86_64", vec!["libdep.so"]);
    old_item.since = Some(t1);
    let old_items = vec![old_item];

    let fresh = vec![
        item("bash", "bash", "x86_64", "x86_64", vec!["libdep.so"]),
        item("zlib", "zlib", "x86_64", "x86_64", vec!["libother.so"]),
    ];
    let stamped = transfer_since(fresh, &old_items, t2);
    assert_eq!(stamped[0].since, Some(t1));
    assert_eq!(stamped[1].since, Some(t2));

    // A second cycle another minute later still keeps the first stamp.
    let t3: i64 = 1_120;
    let again = transfer_since(stamped.clone(), &stamped, t3);
    assert_eq!(again[0].since, Some(t1));
    assert_eq!(again[1].since, Some(t2));
}

#[test]
fn snapshot_keys_and_paths() {
    assert_eq!(release_key("f32", false), "f32");
    assert_eq!(release_key("f32", true), "f32-testing");
    assert_eq!(get_json_path("f32", false), "data/f32.json");
    assert_eq!(get_json_path("f32", true), "data/f32-testing.json");
}

#[test]
fn matrix_expansion_per_release_type() {
    let config = Config {
        repochecker: RepoCheckerConfig { interval_seconds: 86_400 },
        repos: RepoConfig {
            stable: vec![String::from("fedora")],
            updates: vec![String::from("updates")],
            testing: vec![String::from("updates-testing")],
            rawhide: vec![String::from("rawhide")],
        },
        arches: vec![ArchConfig {
            name: String::from("x86_64"),
            multiarch: vec![String::from("i686")],
        }],
        releases: vec![
            ReleaseConfig {
                name: String::from("rawhide"),
                rtype: ReleaseType::Rawhide,
                arches: vec![String::from("x86_64")],
                archived: false,
            },
            ReleaseConfig {
                name: String::from("f33"),
                rtype: ReleaseType::PreRelease,
                arches: vec![String::from("x86_64")],
                archived: false,
            },
            ReleaseConfig {
                name: String::from("f32"),
                rtype: ReleaseType::Stable,
                arches: vec![String::from("x86_64")],
                archived: false,
            },
        ],
    };
    let matrix = config.to_matrix().unwrap();
    assert_eq!(matrix.len(), 4);

    assert_eq!(matrix[0].release, "rawhide");
    assert_eq!(matrix[0].repos, vec![String::from("rawhide")]);
    assert_eq!(matrix[0].check, vec![String::from("rawhide")]);
    assert!(!matrix[0].with_testing);

    assert_eq!(matrix[1].release, "f33");
    assert_eq!(matrix[1].repos, vec![String::from("fedora")]);
    assert_eq!(matrix[1].check, vec![String::from("fedora")]);
    assert!(!matrix[1].with_testing);

    assert_eq!(matrix[2].release, "f32");
    assert_eq!(matrix[2].repos, vec![String::from("fedora"), String::from("updates")]);
    assert_eq!(matrix[2].check, vec![String::from("fedora"), String::from("updates")]);
    assert!(!matrix[2].with_testing);

    assert_eq!(matrix[3].release, "f32");
    assert_eq!(
        matrix[3].repos,
        vec![
            String::from("fedora"),
            String::from("updates"),
            String::from("updates-testing"),
        ]
    );
    assert_eq!(matrix[3].check, vec![String::from("updates-testing")]);
    assert!(matrix[3].with_testing);

    assert_eq!(matrix[0].arches.len(), 1);
    assert_eq!(matrix[0].arches[0].name, "x86_64");
    assert_eq!(matrix[0].arches[0].multi_arch, vec![String::from("i686")]);
}

#[test]
fn matrix_with_unknown_arch_fails() {
    let config = Config {
        repochecker: RepoCheckerConfig { interval_seconds: 86_400 },
        repos: RepoConfig {
            stable: vec![],
            updates: vec![],
            testing: vec![],
            rawhide: vec![],
        },
        arches: vec![],
        releases: vec![ReleaseConfig {
            name: String::from("f32"),
            rtype: ReleaseType::Stable,
            arches: vec![String::from("x86_64")],
            archived: false,
        }],
    };
    assert!(config.to_matrix().is_err());
}

#[test]
fn index_page_lists() {
    let index = Index::new(
        vec![String::from("f32")],
        vec![(String::from("f32"), 3usize)],
        String::from("now"),
    );
    assert_eq!(index.releases, vec![String::from("f32")]);
    assert_eq!(index.stats, vec![(String::from("f32"), 3usize)]);
    assert_eq!(index.date_refreshed, "now");

    let releases = sort_strings_desc(vec![
        String::from("f31"),
        String::from("f33"),
        String::from("f32"),
    ]);
    assert_eq!(releases, vec![String::from("f33"), String::from("f32"), String::from("f31")]);

    let stats = sort_release_stats_desc(vec![
        (String::from("f31"), 2usize),
        (String::from("f33"), 9usize),
    ]);
    assert_eq!(stats, vec![(String::from("f33"), 9usize), (String::from("f31"), 2usize)]);

    let counters = sort_counters_desc(vec![
        (String::from("a"), 1u32),
        (String::from("b"), 5u32),
        (String::from("c"), 3u32),
    ]);
    assert_eq!(counters[0].1, 5);
    assert_eq!(counters[1].1, 3);
    assert_eq!(counters[2].1, 1);
}
