//! The repository driver's command lines and the closure pipeline: joining
//! parsed closure records with source, administrator and maintainer data,
//! architecture-exclusion filtering, override filtering, and the final sort.

use vstd::prelude::*;

use crate::data::{string_views, BrokenDep, BrokenDepV, BrokenItem, BrokenItemV, Package, PackageV};
use crate::table::{assoc_get, assoc_put, table_get, table_put, table_view};
use crate::text::{
    lemma_lex_le_antisym, lemma_lex_le_total, lemma_lex_le_trans, lex_le, str_equal, str_le,
};
use vstd::assert_multisets_equal;
use vstd::multiset::Multiset;

verus! {

/// A flag repeated before each item: `flag i₀ flag i₁ …`.
pub open spec fn flag_args(flag: Seq<char>, items: Seq<Seq<char>>) -> Seq<Seq<char>>
    decreases items.len(),
{
    if items.len() == 0 {
        Seq::empty()
    } else {
        seq![flag, items[0]] + flag_args(flag, items.subrange(1, items.len() as int))
    }
}

proof fn lemma_flag_args_snoc(flag: Seq<char>, items: Seq<Seq<char>>, i: int)
    requires
        0 <= i < items.len(),
    ensures
        flag_args(flag, items.subrange(0, i + 1)) == flag_args(flag, items.subrange(0, i)) + seq![
            flag,
            items[i],
        ],
    decreases i,
{
    let pre = items.subrange(0, i + 1);
    if i == 0 {
        assert(pre =~= seq![items[0]]);
        assert(pre.subrange(1, 1) =~= Seq::<Seq<char>>::empty());
        assert(flag_args(flag, Seq::<Seq<char>>::empty()) =~= Seq::<Seq<char>>::empty());
        assert(flag_args(flag, pre) =~= seq![flag, items[0]]);
        assert(flag_args(flag, items.subrange(0, 0)) =~= Seq::<Seq<char>>::empty());
        assert(flag_args(flag, items.subrange(0, 0)) + seq![flag, items[0]] =~= seq![
            flag,
            items[0],
        ]);
    } else {
        let t = items.subrange(1, items.len() as int);
        lemma_flag_args_snoc(flag, t, i - 1);
        assert(pre[0] == items[0]);
        assert(pre.subrange(1, pre.len() as int) =~= t.subrange(0, i));
        assert(items.subrange(0, i)[0] == items[0]);
        assert(items.subrange(0, i).subrange(1, i) =~= t.subrange(0, i - 1));
        assert(t[i - 1] == items[i]);
        assert(flag_args(flag, pre) == seq![flag, items[0]] + flag_args(flag, t.subrange(0, i)));
        assert(flag_args(flag, items.subrange(0, i)) == seq![flag, items[0]] + flag_args(
            flag,
            t.subrange(0, i - 1),
        ));
        assert(seq![flag, items[0]] + (flag_args(flag, t.subrange(0, i - 1)) + seq![
            flag,
            items[i],
        ]) =~= (seq![flag, items[0]] + flag_args(flag, t.subrange(0, i - 1))) + seq![
            flag,
            items[i],
        ]);
    }
}

/// Append `flag item` for each item.
fn push_flag_pairs(v: &mut Vec<String>, flag: &str, items: &Vec<String>)
    ensures
        string_views(final(v)@) == string_views(old(v)@) + flag_args(
            flag@,
            string_views(items@),
        ),
{
    let ghost base = string_views(v@);
    let ghost itemsv = string_views(items@);
    let mut i: usize = 0;
    proof {
        assert(itemsv.subrange(0, 0) =~= Seq::<Seq<char>>::empty());
        assert(flag_args(flag@, itemsv.subrange(0, 0)) =~= Seq::<Seq<char>>::empty());
        assert(base + flag_args(flag@, itemsv.subrange(0, 0)) =~= base);
    }
    while i < items.len()
        invariant
            0 <= i <= items@.len(),
            itemsv == string_views(items@),
            itemsv.len() == items@.len(),
            string_views(v@) == base + flag_args(flag@, itemsv.subrange(0, i as int)),
        decreases items@.len() - i,
    {
        let ghost before = string_views(v@);
        v.push(String::from_str(flag));
        v.push(items[i].clone());
        proof {
            assert(itemsv[i as int] == items@[i as int]@);
            lemma_flag_args_snoc(flag@, itemsv, i as int);
            assert(string_views(v@) =~= before + seq![flag@, itemsv[i as int]]);
            assert(base + (flag_args(flag@, itemsv.subrange(0, i as int)) + seq![
                flag@,
                itemsv[i as int],
            ]) =~= (base + flag_args(flag@, itemsv.subrange(0, i as int))) + seq![
                flag@,
                itemsv[i as int],
            ]);
        }
        i = i + 1;
    }
    proof {
        assert(itemsv.subrange(0, itemsv.len() as int) =~= itemsv);
    }
}

/// Append one plain argument.
fn push_arg(v: &mut Vec<String>, s: &str)
    ensures
        string_views(final(v)@) == string_views(old(v)@).push(s@),
{
    v.push(String::from_str(s));
    proof {
        assert(string_views(v@) =~= string_views(old(v)@).push(s@));
    }
}

/// Append one owned argument.
fn push_string(v: &mut Vec<String>, s: String)
    ensures
        string_views(final(v)@) == string_views(old(v)@).push(s@),
{
    let ghost sv = s@;
    v.push(s);
    proof {
        assert(string_views(v@) =~= string_views(old(v)@).push(sv));
    }
}

/// The per-(release, arch) scratch directory, relative to the working
/// directory.
pub open spec fn cache_path_view(release: Seq<char>, arch: Seq<char>) -> Seq<char> {
    "cache/"@ + release + "/"@ + arch
}

/// Write the scratch directory path `cache/<release>/<arch>`.
pub fn get_cache_path(release: &str, arch: &str) -> (r: String)
    ensures
        r@ == cache_path_view(release@, arch@),
{
    let mut s = String::from_str("cache/");
    s.append(release);
    s.append("/");
    s.append(arch);
    proof {
        assert(s@ =~= cache_path_view(release@, arch@));
    }
    s
}

/// The arguments shared by every invocation of the external tool: quiet
/// mode, the scratch install root, the release version, one `--repo` per
/// repository, and the forced architecture.
pub open spec fn dnf_base_args(
    release: Seq<char>,
    arch: Seq<char>,
    repos: Seq<Seq<char>>,
) -> Seq<Seq<char>> {
    seq!["--quiet"@, "--installroot"@, cache_path_view(release, arch), "--releasever"@, release]
        + flag_args("--repo"@, repos) + seq!["--forcearch"@, arch]
}

/// The metadata-refresh command line.
pub open spec fn makecache_args_view(
    release: Seq<char>,
    arch: Seq<char>,
    repos: Seq<Seq<char>>,
) -> Seq<Seq<char>> {
    dnf_base_args(release, arch, repos) + seq!["makecache"@, "--refresh"@]
}

/// The six-field query format of the content enumeration.
pub open spec fn queryformat_lit() -> Seq<char> {
    "%{name} %{source_name} %{epoch} %{version} %{release} %{arch}"@
}

/// The content-enumeration command line.
pub open spec fn repoquery_args_view(
    release: Seq<char>,
    arch: Seq<char>,
    repos: Seq<Seq<char>>,
) -> Seq<Seq<char>> {
    dnf_base_args(release, arch, repos) + seq!["repoquery"@, "--queryformat"@, queryformat_lit()]
}

/// The closure-check command line: the base arguments, then
/// `repoclosure --newest`, one `--arch` per multi-arch entry, and the
/// checked repository.
pub open spec fn repoclosure_args_view(
    release: Seq<char>,
    arch: Seq<char>,
    repos: Seq<Seq<char>>,
    multi_arch: Seq<Seq<char>>,
    check: Seq<char>,
) -> Seq<Seq<char>> {
    dnf_base_args(release, arch, repos) + seq!["repoclosure"@, "--newest"@] + flag_args(
        "--arch"@,
        multi_arch,
    ) + seq!["--check"@, check]
}

/// Build the metadata-refresh arguments.
pub fn make_cache_args(release: &str, arch: &str, repos: &Vec<String>) -> (r: Vec<String>)
    ensures
        string_views(r@) == makecache_args_view(release@, arch@, string_views(repos@)),
{
    let mut v: Vec<String> = Vec::new();
    push_arg(&mut v, "--quiet");
    push_arg(&mut v, "--installroot");
    let path = get_cache_path(release, arch);
    let ghost pathv = path@;
    push_string(&mut v, path);
    push_arg(&mut v, "--releasever");
    push_arg(&mut v, release);
    proof {
        assert(string_views(v@) =~= seq![
            "--quiet"@,
            "--installroot"@,
            pathv,
            "--releasever"@,
            release@,
        ]);
    }
    push_flag_pairs(&mut v, "--repo", repos);
    push_arg(&mut v, "--forcearch");
    push_arg(&mut v, arch);
    push_arg(&mut v, "makecache");
    push_arg(&mut v, "--refresh");
    proof {
        assert(string_views(v@) =~= makecache_args_view(release@, arch@, string_views(repos@)));
    }
    v
}

/// Build the content-enumeration arguments.
pub fn repoquery_args(release: &str, arch: &str, repos: &Vec<String>) -> (r: Vec<String>)
    ensures
        string_views(r@) == repoquery_args_view(release@, arch@, string_views(repos@)),
{
    let mut v: Vec<String> = Vec::new();
    push_arg(&mut v, "--quiet");
    push_arg(&mut v, "--installroot");
    let path = get_cache_path(release, arch);
    let ghost pathv = path@;
    push_string(&mut v, path);
    push_arg(&mut v, "--releasever");
    push_arg(&mut v, release);
    proof {
        assert(string_views(v@) =~= seq![
            "--quiet"@,
            "--installroot"@,
            pathv,
            "--releasever"@,
            release@,
        ]);
    }
    push_flag_pairs(&mut v, "--repo", repos);
    push_arg(&mut v, "--forcearch");
    push_arg(&mut v, arch);
    push_arg(&mut v, "repoquery");
    push_arg(&mut v, "--queryformat");
    push_arg(&mut v, "%{name} %{source_name} %{epoch} %{version} %{release} %{arch}");
    proof {
        assert(string_views(v@) =~= repoquery_args_view(release@, arch@, string_views(repos@)));
    }
    v
}

/// Build the closure-check arguments for one checked repository.
pub fn repoclosure_args(
    release: &str,
    arch: &str,
    repos: &Vec<String>,
    multi_arch: &Vec<String>,
    check: &str,
) -> (r: Vec<String>)
    ensures
        string_views(r@) == repoclosure_args_view(
            release@,
            arch@,
            string_views(repos@),
            string_views(multi_arch@),
            check@,
        ),
{
    let mut v: Vec<String> = Vec::new();
    push_arg(&mut v, "--quiet");
    push_arg(&mut v, "--installroot");
    let path = get_cache_path(release, arch);
    let ghost pathv = path@;
    push_string(&mut v, path);
    push_arg(&mut v, "--releasever");
    push_arg(&mut v, release);
    proof {
        assert(string_views(v@) =~= seq![
            "--quiet"@,
            "--installroot"@,
            pathv,
            "--releasever"@,
            release@,
        ]);
    }
    push_flag_pairs(&mut v, "--repo", repos);
    push_arg(&mut v, "--forcearch");
    push_arg(&mut v, arch);
    push_arg(&mut v, "repoclosure");
    push_arg(&mut v, "--newest");
    push_flag_pairs(&mut v, "--arch", multi_arch);
    push_arg(&mut v, "--check");
    push_arg(&mut v, check);
    proof {
        assert(string_views(v@) =~= repoclosure_args_view(
            release@,
            arch@,
            string_views(repos@),
            string_views(multi_arch@),
            check@,
        ));
    }
    v
}

/// The binary-to-source map a content listing induces, read left to right:
/// source artifacts are skipped, and a later binary of the same name wins.
pub open spec fn source_map_from(
    ps: Seq<PackageV>,
    acc: Seq<(Seq<char>, Seq<char>)>,
) -> Seq<(Seq<char>, Seq<char>)>
    decreases ps.len(),
{
    if ps.len() == 0 {
        acc
    } else {
        let rest = ps.subrange(1, ps.len() as int);
        if ps[0].arch == "src"@ {
            source_map_from(rest, acc)
        } else {
            source_map_from(rest, assoc_put(acc, ps[0].name, ps[0].source_name))
        }
    }
}

/// The binary-to-source map of a content listing.
pub open spec fn source_map_view(ps: Seq<PackageV>) -> Seq<(Seq<char>, Seq<char>)> {
    source_map_from(ps, Seq::empty())
}

proof fn lemma_source_map_from_snoc(ps: Seq<PackageV>, acc: Seq<(Seq<char>, Seq<char>)>, i: int)
    requires
        0 <= i < ps.len(),
    ensures
        source_map_from(ps.subrange(0, i + 1), acc) == (if ps[i].arch == "src"@ {
            source_map_from(ps.subrange(0, i), acc)
        } else {
            assoc_put(source_map_from(ps.subrange(0, i), acc), ps[i].name, ps[i].source_name)
        }),
    decreases ps.len(),
{
    lemma_source_map_append_one(ps.subrange(0, i), acc, ps[i]);
    assert(ps.subrange(0, i).push(ps[i]) =~= ps.subrange(0, i + 1));
}

proof fn lemma_source_map_append_one(ps: Seq<PackageV>, acc: Seq<(Seq<char>, Seq<char>)>, p: PackageV)
    ensures
        source_map_from(ps.push(p), acc) == (if p.arch == "src"@ {
            source_map_from(ps, acc)
        } else {
            assoc_put(source_map_from(ps, acc), p.name, p.source_name)
        }),
    decreases ps.len(),
{
    let w = ps.push(p);
    if ps.len() == 0 {
        assert(w[0] == p);
        assert(w.subrange(1, w.len() as int) =~= Seq::<PackageV>::empty());
        assert(source_map_from(Seq::<PackageV>::empty(), acc) == acc);
        assert(source_map_from(
            Seq::<PackageV>::empty(),
            assoc_put(acc, p.name, p.source_name),
        ) == assoc_put(acc, p.name, p.source_name));
        assert(source_map_from(ps, acc) == acc);
        if p.arch == "src"@ {
            assert(source_map_from(w, acc) == source_map_from(w.subrange(1, w.len() as int), acc));
        } else {
            assert(source_map_from(w, acc) == source_map_from(
                w.subrange(1, w.len() as int),
                assoc_put(acc, w[0].name, w[0].source_name),
            ));
        }
    } else {
        let t = ps.subrange(1, ps.len() as int);
        assert(w[0] == ps[0]);
        assert(w.subrange(1, w.len() as int) =~= t.push(p));
        if ps[0].arch == "src"@ {
            lemma_source_map_append_one(t, acc, p);
            assert(source_map_from(w, acc) == source_map_from(t.push(p), acc));
            assert(source_map_from(ps, acc) == source_map_from(t, acc));
        } else {
            let acc2 = assoc_put(acc, ps[0].name, ps[0].source_name);
            lemma_source_map_append_one(t, acc2, p);
            assert(source_map_from(w, acc) == source_map_from(t.push(p), acc2));
            assert(source_map_from(ps, acc) == source_map_from(t, acc2));
        }
    }
}

/// Build the binary-to-source map from a content listing.
pub fn get_source_map(contents: &Vec<Package>) -> (r: Vec<(String, String)>)
    ensures
        table_view(r@) == source_map_view(contents@.map_values(|p: Package| p@)),
{
    let ghost pv = contents@.map_values(|p: Package| p@);
    let mut map: Vec<(String, String)> = Vec::new();
    let mut i: usize = 0;
    proof {
        assert(pv.subrange(0, 0) =~= Seq::<PackageV>::empty());
    }
    while i < contents.len()
        invariant
            0 <= i <= contents@.len(),
            pv == contents@.map_values(|p: Package| p@),
            pv.len() == contents@.len(),
            table_view(map@) == source_map_from(pv.subrange(0, i as int), Seq::empty()),
        decreases contents@.len() - i,
    {
        let package = &contents[i];
        proof {
            assert(pv[i as int] == package@);
            lemma_source_map_from_snoc(pv, Seq::empty(), i as int);
        }
        if !str_equal(package.arch.as_str(), "src") {
            proof {
                reveal_strlit("src");
            }
            table_put(&mut map, package.name.clone(), package.source_name.clone());
        } else {
            proof {
                reveal_strlit("src");
            }
        }
        i = i + 1;
    }
    proof {
        assert(pv.subrange(0, pv.len() as int) =~= pv);
    }
    map
}

/// The publication order: by source, then package, then the artifact's own
/// arch, each lexicographically.
pub open spec fn item_le(a: BrokenItemV, b: BrokenItemV) -> bool {
    if a.source != b.source {
        lex_le(a.source, b.source)
    } else if a.package != b.package {
        lex_le(a.package, b.package)
    } else {
        lex_le(a.arch, b.arch)
    }
}

pub proof fn lemma_item_le_refl(a: BrokenItemV)
    ensures
        item_le(a, a),
{
    lemma_lex_le_total(a.arch, a.arch);
}

pub proof fn lemma_item_le_total(a: BrokenItemV, b: BrokenItemV)
    ensures
        item_le(a, b) || item_le(b, a),
{
    lemma_lex_le_total(a.source, b.source);
    lemma_lex_le_total(a.package, b.package);
    lemma_lex_le_total(a.arch, b.arch);
}

pub proof fn lemma_item_le_trans(a: BrokenItemV, b: BrokenItemV, c: BrokenItemV)
    requires
        item_le(a, b),
        item_le(b, c),
    ensures
        item_le(a, c),
{
    if a.source != b.source && b.source != c.source {
        lemma_lex_le_trans(a.source, b.source, c.source);
        if a.source == c.source {
            lemma_lex_le_antisym(a.source, b.source);
        }
    } else if a.source == b.source && b.source == c.source {
        if a.package != b.package && b.package != c.package {
            lemma_lex_le_trans(a.package, b.package, c.package);
            if a.package == c.package {
                lemma_lex_le_antisym(a.package, b.package);
            }
        } else if a.package == b.package && b.package == c.package {
            lemma_lex_le_trans(a.arch, b.arch, c.arch);
        }
    }
}

/// Compare two items in publication order.
fn item_le_exec(a: &BrokenItem, b: &BrokenItem) -> (r: bool)
    ensures
        r == item_le(a@, b@),
{
    if !str_equal(a.source.as_str(), b.source.as_str()) {
        str_le(a.source.as_str(), b.source.as_str())
    } else if !str_equal(a.package.as_str(), b.package.as_str()) {
        str_le(a.package.as_str(), b.package.as_str())
    } else {
        str_le(a.arch.as_str(), b.arch.as_str())
    }
}

/// The views of a vector of published items.
pub open spec fn item_views(v: Seq<BrokenItem>) -> Seq<BrokenItemV> {
    v.map_values(|x: BrokenItem| x@)
}

/// Sort published items by `(source, package, arch)`: the result is a
/// permutation of the input with consecutive records in nondecreasing
/// order.
pub fn sort_broken_items(items: Vec<BrokenItem>) -> (r: Vec<BrokenItem>)
    ensures
        r@.len() == items@.len(),
        forall|i: int| 0 <= i && i + 1 < r@.len() ==> item_le(#[trigger] r@[i]@, r@[i + 1]@),
        item_views(r@).to_multiset() == item_views(items@).to_multiset(),
{
    broadcast use vstd::seq_lib::group_to_multiset_ensures;

    let mut rest = items;
    let mut out: Vec<BrokenItem> = Vec::new();
    proof {
        assert(item_views(out@).to_multiset() =~= Multiset::<BrokenItemV>::empty());
        assert(item_views(out@).to_multiset().add(item_views(rest@).to_multiset())
            =~= item_views(rest@).to_multiset());
    }
    while rest.len() > 0
        invariant
            out@.len() + rest@.len() == items@.len(),
            forall|i: int| 0 <= i && i + 1 < out@.len() ==> item_le(#[trigger] out@[i]@, out@[i + 1]@),
            forall|i: int, j: int|
                0 <= i < out@.len() && 0 <= j < rest@.len() ==> item_le(
                    (#[trigger] out@[i])@,
                    (#[trigger] rest@[j])@,
                ),
            item_views(out@).to_multiset().add(item_views(rest@).to_multiset()) == item_views(
                items@,
            ).to_multiset(),
        decreases rest@.len(),
    {
        let mut m: usize = 0;
        let mut j: usize = 1;
        proof {
            lemma_item_le_refl(rest@[0]@);
        }
        while j < rest.len()
            invariant
                0 <= m < j <= rest@.len(),
                forall|q: int| 0 <= q < j ==> item_le(rest@[m as int]@, (#[trigger] rest@[q])@),
            decreases rest@.len() - j,
        {
            let lt = item_le_exec(&rest[j], &rest[m]) && !item_le_exec(&rest[m], &rest[j]);
            if lt {
                proof {
                    assert forall|q: int| 0 <= q < j + 1 implies item_le(
                        rest@[j as int]@,
                        (#[trigger] rest@[q])@,
                    ) by {
                        if q == j {
                            lemma_item_le_refl(rest@[j as int]@);
                        } else {
                            lemma_item_le_trans(rest@[j as int]@, rest@[m as int]@, rest@[q]@);
                        }
                    }
                }
                m = j;
            } else {
                proof {
                    lemma_item_le_total(rest@[m as int]@, rest@[j as int]@);
                }
            }
            j = j + 1;
        }
        let ghost rest_old = rest@;
        let ghost out_old = out@;
        let x = rest.remove(m);
        proof {
            assert(rest@ == rest_old.remove(m as int));
            assert(item_views(rest_old.remove(m as int)) =~= item_views(rest_old).remove(
                m as int,
            ));
            assert(item_views(rest_old)[m as int] == x@);
            item_views(rest_old).to_multiset_ensures();
            assert(item_views(rest_old).remove(m as int).to_multiset() =~= item_views(
                rest_old,
            ).to_multiset().remove(x@));
        }
        out.push(x);
        proof {
            assert(item_views(out@) =~= item_views(out_old).push(x@));
            item_views(out_old).to_multiset_ensures();
            assert(item_views(out_old).push(x@).to_multiset() =~= item_views(
                out_old,
            ).to_multiset().insert(x@));
            assert_multisets_equal!(
                item_views(out_old).to_multiset().insert(x@).add(item_views(rest_old).to_multiset().remove(x@)),
                item_views(out_old).to_multiset().add(item_views(rest_old).to_multiset())
            );
            assert(out@[out@.len() - 1] == x);
            assert forall|i: int, jj: int|
                0 <= i < out@.len() && 0 <= jj < rest@.len() implies item_le(
                (#[trigger] out@[i])@,
                (#[trigger] rest@[jj])@,
            ) by {
                assert(rest@[jj] == rest_old[if jj < m as int {
                    jj
                } else {
                    jj + 1
                }]);
                if i < out@.len() - 1 {
                    assert(out@[i] == out_old[i]);
                }
            }
        }
    }
    proof {
        assert(item_views(rest@).to_multiset() =~= Multiset::<BrokenItemV>::empty());
        assert_multisets_equal!(
            item_views(out@).to_multiset().add(Multiset::<BrokenItemV>::empty()),
            item_views(out@).to_multiset()
        );
    }
    out
}

/// The source package a closure record resolves to: a source artifact is
/// its own source, a binary is looked up in the binary-to-source map.
pub open spec fn join_source(d: BrokenDepV, smap: Seq<(Seq<char>, Seq<char>)>) -> Option<
    Seq<char>,
> {
    if d.arch == "src"@ {
        Some(d.package)
    } else {
        assoc_get(smap, d.package)
    }
}

/// Every record's source resolves.
pub open spec fn join_ok(deps: Seq<BrokenDepV>, smap: Seq<(Seq<char>, Seq<char>)>) -> bool {
    forall|i: int| 0 <= i < deps.len() ==> join_source(#[trigger] deps[i], smap) is Some
}

/// The administrator of a source package, with the sentinel for unknown
/// packages.
pub open spec fn admin_of(admins: Seq<(Seq<char>, Seq<char>)>, source: Seq<char>) -> Seq<char> {
    match assoc_get(admins, source) {
        Some(a) => a,
        None => "(N/A)"@,
    }
}

/// The view of the maintainer map.
pub open spec fn maint_view(s: Seq<(String, Vec<String>)>) -> Seq<(Seq<char>, Seq<Seq<char>>)> {
    s.map_values(|p: (String, Vec<String>)| (p.0@, string_views(p.1@)))
}

/// The maintainer list of a source package, empty for unknown packages.
pub open spec fn maintainers_of(
    maints: Seq<(Seq<char>, Seq<Seq<char>>)>,
    source: Seq<char>,
) -> Seq<Seq<char>> {
    match assoc_get(maints, source) {
        Some(m) => m,
        None => Seq::empty(),
    }
}

/// One closure record joined with source, administrator, maintainers, and
/// the architecture the closure was computed for; `since` is not yet set.
pub open spec fn joined_item(
    d: BrokenDepV,
    smap: Seq<(Seq<char>, Seq<char>)>,
    admins: Seq<(Seq<char>, Seq<char>)>,
    maints: Seq<(Seq<char>, Seq<Seq<char>>)>,
    repo_arch: Seq<char>,
) -> BrokenItemV {
    let source = join_source(d, smap).unwrap();
    BrokenItemV {
        source,
        package: d.package,
        epoch: d.epoch,
        version: d.version,
        release: d.release,
        arch: d.arch,
        admin: admin_of(admins, source),
        maintainers: maintainers_of(maints, source),
        repo: d.repo,
        repo_arch,
        broken: d.broken,
        since: None,
    }
}

/// Find the first maintainer list bound to `k`.
fn maint_get<'a>(v: &'a Vec<(String, Vec<String>)>, k: &str) -> (r: Option<&'a Vec<String>>)
    ensures
        match r {
            Some(x) => assoc_get(maint_view(v@), k@) == Some(string_views(x@)),
            None => assoc_get(maint_view(v@), k@) is None,
        },
{
    let ghost s = maint_view(v@);
    let mut i: usize = 0;
    while i < v.len()
        invariant
            0 <= i <= v@.len(),
            s == maint_view(v@),
            s.len() == v@.len(),
            forall|j: int| 0 <= j < i ==> (#[trigger] s[j]).0 != k@,
        decreases v@.len() - i,
    {
        let pair = &v[i];
        proof {
            assert(s[i as int] == (pair.0@, string_views(pair.1@)));
        }
        if str_equal(pair.0.as_str(), k) {
            proof {
                crate::table::lemma_key_index_witness(s, k@, i as int);
            }
            return Some(&pair.1);
        }
        i = i + 1;
    }
    proof {
        crate::table::lemma_key_index_none(s, k@);
    }
    None
}

/// Join parsed closure records with the binary-to-source map, the
/// administrator map and the maintainer map; a binary record absent from
/// the content listing is an error naming the package.
pub fn join_broken_deps(
    deps: &Vec<BrokenDep>,
    source_map: &Vec<(String, String)>,
    admins: &Vec<(String, String)>,
    maintainers: &Vec<(String, Vec<String>)>,
    repo_arch: &str,
) -> (r: Result<Vec<BrokenItem>, String>)
    ensures
        match r {
            Ok(v) => join_ok(deps@.map_values(|d: BrokenDep| d@), table_view(source_map@))
                && v@.map_values(|x: BrokenItem| x@) == deps@.map_values(
                |d: BrokenDep| d@,
            ).map_values(
                |d: BrokenDepV|
                    joined_item(
                        d,
                        table_view(source_map@),
                        table_view(admins@),
                        maint_view(maintainers@),
                        repo_arch@,
                    ),
            ),
            Err(_) => !join_ok(
                deps@.map_values(|d: BrokenDep| d@),
                table_view(source_map@),
            ),
        },
{
    let ghost dv = deps@.map_values(|d: BrokenDep| d@);
    let ghost smap = table_view(source_map@);
    let ghost adminv = table_view(admins@);
    let ghost maintv = maint_view(maintainers@);
    let mut out: Vec<BrokenItem> = Vec::new();
    let mut i: usize = 0;
    while i < deps.len()
        invariant
            0 <= i <= deps@.len(),
            dv == deps@.map_values(|d: BrokenDep| d@),
            dv.len() == deps@.len(),
            smap == table_view(source_map@),
            adminv == table_view(admins@),
            maintv == maint_view(maintainers@),
            out@.len() == i,
            forall|j: int| 0 <= j < i ==> join_source(#[trigger] dv[j], smap) is Some,
            forall|j: int|
                0 <= j < i ==> (#[trigger] out@[j])@ == joined_item(
                    dv[j],
                    smap,
                    adminv,
                    maintv,
                    repo_arch@,
                ),
        decreases deps@.len() - i,
    {
        let dep = &deps[i];
        proof {
            assert(dv[i as int] == dep@);
            reveal_strlit("src");
        }
        let source: String = if str_equal(dep.arch.as_str(), "src") {
            dep.package.clone()
        } else {
            match table_get(source_map, dep.package.as_str()) {
                Some(s) => s.clone(),
                None => {
                    proof {
                        assert(join_source(dv[i as int], smap) is None);
                        assert(!join_ok(dv, smap));
                    }
                    return Err(error_join_msg(dep.package.as_str()));
                },
            }
        };
        let admin: String = match table_get(admins, source.as_str()) {
            Some(a) => a.clone(),
            None => {
                let a = String::from_str("(N/A)");
                a
            },
        };
        let maint: Vec<String> = match maint_get(maintainers, source.as_str()) {
            Some(m) => crate::data::clone_string_vec(m),
            None => Vec::new(),
        };
        let item = BrokenItem {
            source,
            package: dep.package.clone(),
            epoch: dep.epoch.clone(),
            version: dep.version.clone(),
            release: dep.release.clone(),
            arch: dep.arch.clone(),
            admin,
            maintainers: maint,
            repo: dep.repo.clone(),
            repo_arch: String::from_str(repo_arch),
            broken: crate::data::clone_string_vec(&dep.broken),
            since: None,
        };
        proof {
            assert(item@.broken =~= dv[i as int].broken);
            assert(item@.maintainers =~= maintainers_of(maintv, item@.source));
            assert(item@ == joined_item(dv[i as int], smap, adminv, maintv, repo_arch@));
        }
        out.push(item);
        i = i + 1;
    }
    proof {
        assert(out@.map_values(|x: BrokenItem| x@) =~= dv.map_values(
            |d: BrokenDepV| joined_item(d, smap, adminv, maintv, repo_arch@),
        ));
    }
    Ok(out)
}

/// The error for a binary closure record absent from the content listing.
fn error_join_msg(package: &str) -> (r: String)
    ensures
        r@ == "Unable to find source package for "@ + package@,
{
    let s = String::from_str("Unable to find source package for ");
    s.concat(package)
}

/// A source name produces at least one binary in this content listing.
pub open spec fn is_built(ps: Seq<PackageV>, name: Seq<char>) -> bool {
    exists|i: int| 0 <= i < ps.len() && (#[trigger] ps[i]).arch != "src"@ && ps[i].source_name == name
}

/// A source name produces a binary on at least one architecture.
pub open spec fn built_somewhere(css: Seq<Seq<PackageV>>, name: Seq<char>) -> bool {
    exists|k: int| 0 <= k < css.len() && is_built(#[trigger] css[k], name)
}

/// A record survives the exclusion filter: a source-arch record whose
/// source builds binaries somewhere, but none on this architecture, is
/// deemed excluded by its spec and dropped.
pub open spec fn kept_after_exclusion(
    item: BrokenItemV,
    css: Seq<Seq<PackageV>>,
    arch_contents: Seq<PackageV>,
) -> bool {
    !(item.arch == "src"@ && built_somewhere(css, item.source) && !is_built(
        arch_contents,
        item.source,
    ))
}

/// The views of a vector of content listings.
pub open spec fn contents_views(s: Seq<Vec<Package>>) -> Seq<Seq<PackageV>> {
    s.map_values(|v: Vec<Package>| v@.map_values(|p: Package| p@))
}

/// Whether `name` builds a binary in this listing.
fn source_built_on(contents: &Vec<Package>, name: &str) -> (r: bool)
    ensures
        r == is_built(contents@.map_values(|p: Package| p@), name@),
{
    let ghost pv = contents@.map_values(|p: Package| p@);
    let mut i: usize = 0;
    while i < contents.len()
        invariant
            0 <= i <= contents@.len(),
            pv == contents@.map_values(|p: Package| p@),
            pv.len() == contents@.len(),
            forall|j: int|
                0 <= j < i ==> !((#[trigger] pv[j]).arch != "src"@ && pv[j].source_name == name@),
        decreases contents@.len() - i,
    {
        let p = &contents[i];
        proof {
            assert(pv[i as int] == p@);
            reveal_strlit("src");
        }
        if !str_equal(p.arch.as_str(), "src") && str_equal(p.source_name.as_str(), name) {
            proof {
                assert(is_built(pv, name@));
            }
            return true;
        }
        i = i + 1;
    }
    proof {
        assert(!is_built(pv, name@));
    }
    false
}

/// Whether `name` builds a binary on any architecture.
fn source_built_somewhere(all_contents: &Vec<Vec<Package>>, name: &str) -> (r: bool)
    ensures
        r == built_somewhere(contents_views(all_contents@), name@),
{
    let ghost css = contents_views(all_contents@);
    let mut k: usize = 0;
    while k < all_contents.len()
        invariant
            0 <= k <= all_contents@.len(),
            css == contents_views(all_contents@),
            css.len() == all_contents@.len(),
            forall|j: int| 0 <= j < k ==> !is_built(#[trigger] css[j], name@),
        decreases all_contents@.len() - k,
    {
        proof {
            assert(css[k as int] == all_contents@[k as int]@.map_values(|p: Package| p@));
        }
        if source_built_on(&all_contents[k], name) {
            proof {
                assert(built_somewhere(css, name@));
            }
            return true;
        }
        k = k + 1;
    }
    proof {
        assert(!built_somewhere(css, name@));
    }
    false
}

/// A capability is suppressed when the override engine would match it: all
/// six branches exist and one of the four tables admits the pair.
pub open spec fn suppressed(
    data: crate::overrides::OverrideDataV,
    release: Seq<char>,
    repo_arch: Seq<char>,
    package: Seq<char>,
    cap: Seq<char>,
) -> bool {
    crate::overrides::branches_present(data, release, repo_arch) && crate::overrides::lookup_match(
        data,
        release,
        repo_arch,
        package,
        cap,
    ) is Some
}

/// The capabilities of one record that no override suppresses, in order.
pub open spec fn kept_caps(
    data: crate::overrides::OverrideDataV,
    release: Seq<char>,
    item: BrokenItemV,
) -> Seq<Seq<char>> {
    item.broken.filter(
        |c: Seq<char>| !suppressed(data, release, item.repo_arch, item.package, c),
    )
}

/// `item` with its capability list replaced.
pub open spec fn with_broken(item: BrokenItemV, b: Seq<Seq<char>>) -> BrokenItemV {
    BrokenItemV {
        source: item.source,
        package: item.package,
        epoch: item.epoch,
        version: item.version,
        release: item.release,
        arch: item.arch,
        admin: item.admin,
        maintainers: item.maintainers,
        repo: item.repo,
        repo_arch: item.repo_arch,
        broken: b,
        since: item.since,
    }
}

/// The records after override filtering: each keeps only its unsuppressed
/// capabilities, and records left with none are dropped.
pub open spec fn drop_suppressed(
    data: crate::overrides::OverrideDataV,
    release: Seq<char>,
    items: Seq<BrokenItemV>,
) -> Seq<BrokenItemV>
    decreases items.len(),
{
    if items.len() == 0 {
        Seq::empty()
    } else {
        let kept = kept_caps(data, release, items[0]);
        let rest = drop_suppressed(data, release, items.subrange(1, items.len() as int));
        if kept.len() == 0 {
            rest
        } else {
            seq![with_broken(items[0], kept)] + rest
        }
    }
}

proof fn lemma_drop_suppressed_snoc(
    data: crate::overrides::OverrideDataV,
    release: Seq<char>,
    items: Seq<BrokenItemV>,
    x: BrokenItemV,
)
    ensures
        drop_suppressed(data, release, items.push(x)) == (if kept_caps(data, release, x).len()
            == 0 {
            drop_suppressed(data, release, items)
        } else {
            drop_suppressed(data, release, items).push(
                with_broken(x, kept_caps(data, release, x)),
            )
        }),
    decreases items.len(),
{
    let w = items.push(x);
    if items.len() == 0 {
        assert(w[0] == x);
        assert(w.subrange(1, w.len() as int) =~= Seq::<BrokenItemV>::empty());
        assert(drop_suppressed(data, release, Seq::<BrokenItemV>::empty())
            == Seq::<BrokenItemV>::empty());
        if kept_caps(data, release, x).len() != 0 {
            assert(seq![with_broken(x, kept_caps(data, release, x))]
                + Seq::<BrokenItemV>::empty() =~= drop_suppressed(
                data,
                release,
                items,
            ).push(with_broken(x, kept_caps(data, release, x))));
        }
    } else {
        let t = items.subrange(1, items.len() as int);
        assert(w[0] == items[0]);
        assert(w.subrange(1, w.len() as int) =~= t.push(x));
        lemma_drop_suppressed_snoc(data, release, t, x);
        let kept0 = kept_caps(data, release, items[0]);
        let keptx = kept_caps(data, release, x);
        if kept0.len() == 0 {
            assert(drop_suppressed(data, release, w) == drop_suppressed(data, release, t.push(x)));
        } else {
            if keptx.len() != 0 {
                assert(seq![with_broken(items[0], kept0)] + drop_suppressed(
                    data,
                    release,
                    t,
                ).push(with_broken(x, keptx)) =~= (seq![with_broken(items[0], kept0)]
                    + drop_suppressed(data, release, t)).push(with_broken(x, keptx)));
            }
        }
    }
}

/// The stats after looking up every capability of one record, in order.
pub open spec fn caps_bumped(
    data: crate::overrides::OverrideDataV,
    release: Seq<char>,
    repo_arch: Seq<char>,
    package: Seq<char>,
    caps: Seq<Seq<char>>,
    stats: Seq<(Seq<char>, u32)>,
) -> Seq<(Seq<char>, u32)>
    decreases caps.len(),
{
    if caps.len() == 0 {
        stats
    } else {
        caps_bumped(
            data,
            release,
            repo_arch,
            package,
            caps.subrange(1, caps.len() as int),
            crate::overrides::lookup_bump(data, release, repo_arch, package, caps[0], stats),
        )
    }
}

/// The stats after looking up every capability of every record, in order.
pub open spec fn items_bumped(
    data: crate::overrides::OverrideDataV,
    release: Seq<char>,
    items: Seq<BrokenItemV>,
    stats: Seq<(Seq<char>, u32)>,
) -> Seq<(Seq<char>, u32)>
    decreases items.len(),
{
    if items.len() == 0 {
        stats
    } else {
        items_bumped(
            data,
            release,
            items.subrange(1, items.len() as int),
            caps_bumped(
                data,
                release,
                items[0].repo_arch,
                items[0].package,
                items[0].broken,
                stats,
            ),
        )
    }
}

/// Filter every record's capabilities through the override engine,
/// counting one hit per suppressed capability, and drop records left with
/// no capability. The override data itself never changes.
pub fn apply_overrides(
    overrides: &mut crate::overrides::Overrides,
    release: &str,
    items: Vec<BrokenItem>,
) -> (r: Vec<BrokenItem>)
    ensures
        final(overrides).data == old(overrides).data,
        item_views(r@) == drop_suppressed(old(overrides)@.data, release@, item_views(items@)),
        table_view(final(overrides).stats@) == items_bumped(
            old(overrides)@.data,
            release@,
            item_views(items@),
            table_view(old(overrides).stats@),
        ),
{
    let ghost data = overrides@.data;
    let ghost itemsv = item_views(items@);
    let ghost stats0 = table_view(overrides.stats@);
    let mut out: Vec<BrokenItem> = Vec::new();
    let mut i: usize = 0;
    proof {
        assert(itemsv.subrange(0, 0) =~= Seq::<BrokenItemV>::empty());
        assert(item_views(out@) =~= drop_suppressed(data, release@, itemsv.subrange(0, 0)));
        assert(itemsv.subrange(0, itemsv.len() as int) =~= itemsv);
    }
    while i < items.len()
        invariant
            0 <= i <= items@.len(),
            overrides.data == old(overrides).data,
            data == old(overrides)@.data,
            stats0 == table_view(old(overrides).stats@),
            itemsv == item_views(items@),
            itemsv.len() == items@.len(),
            item_views(out@) == drop_suppressed(data, release@, itemsv.subrange(0, i as int)),
            items_bumped(data, release@, itemsv, stats0) == items_bumped(
                data,
                release@,
                itemsv.subrange(i as int, itemsv.len() as int),
                table_view(overrides.stats@),
            ),
        decreases items@.len() - i,
    {
        let item = &items[i];
        let ghost iv = itemsv[i as int];
        proof {
            assert(iv == item@);
            let remaining = itemsv.subrange(i as int, itemsv.len() as int);
            assert(remaining[0] == iv);
            assert(remaining.subrange(1, remaining.len() as int) =~= itemsv.subrange(
                i + 1,
                itemsv.len() as int,
            ));
        }
        let mut kept: Vec<String> = Vec::new();
        let mut c: usize = 0;
        proof {
            assert(iv.broken.subrange(0, 0) =~= Seq::<Seq<char>>::empty());
            assert(string_views(kept@) =~= iv.broken.subrange(0, 0).filter(
                |cc: Seq<char>| !suppressed(data, release@, iv.repo_arch, iv.package, cc),
            ));
            assert(iv.broken.subrange(0, iv.broken.len() as int) =~= iv.broken);
        }
        while c < item.broken.len()
            invariant
                0 <= c <= item.broken@.len(),
                0 <= i < itemsv.len(),
                overrides.data == old(overrides).data,
                data == old(overrides)@.data,
                stats0 == table_view(old(overrides).stats@),
                iv == item@,
                iv == itemsv[i as int],
                iv.broken.len() == item.broken@.len(),
                string_views(kept@) == iv.broken.subrange(0, c as int).filter(
                    (|cc: Seq<char>| !suppressed(data, release@, iv.repo_arch, iv.package, cc)),
                ),
                items_bumped(data, release@, itemsv, stats0) == items_bumped(
                    data,
                    release@,
                    itemsv.subrange(i as int + 1, itemsv.len() as int),
                    caps_bumped(
                        data,
                        release@,
                        iv.repo_arch,
                        iv.package,
                        iv.broken.subrange(c as int, iv.broken.len() as int),
                        table_view(overrides.stats@),
                    ),
                ),
            decreases item.broken@.len() - c,
        {
            broadcast use vstd::prelude::Seq::lemma_filter_push;

            let cap = &item.broken[c];
            let ghost capv = iv.broken[c as int];
            proof {
                assert(capv == cap@);
                let caps_remaining = iv.broken.subrange(c as int, iv.broken.len() as int);
                assert(caps_remaining[0] == capv);
                assert(caps_remaining.subrange(1, caps_remaining.len() as int)
                    =~= iv.broken.subrange(c + 1, iv.broken.len() as int));
            }
            let hit = overrides.lookup(
                release,
                item.repo_arch.as_str(),
                item.package.as_str(),
                cap.as_str(),
            );
            proof {
                assert(hit == suppressed(data, release@, iv.repo_arch, iv.package, capv));
                assert(iv.broken.subrange(0, c + 1) =~= iv.broken.subrange(0, c as int).push(
                    capv,
                ));
            }
            if !hit {
                let ghost kept_old = string_views(kept@);
                kept.push(cap.clone());
                proof {
                    assert(string_views(kept@) =~= kept_old.push(capv));
                }
            }
            c = c + 1;
        }
        proof {
            assert(iv.broken.subrange(0, iv.broken.len() as int) =~= iv.broken);
            assert(string_views(kept@) == kept_caps(data, release@, iv));
        }
        if kept.len() > 0 {
            let filtered = BrokenItem {
                source: item.source.clone(),
                package: item.package.clone(),
                epoch: item.epoch.clone(),
                version: item.version.clone(),
                release: item.release.clone(),
                arch: item.arch.clone(),
                admin: item.admin.clone(),
                maintainers: crate::data::clone_string_vec(&item.maintainers),
                repo: item.repo.clone(),
                repo_arch: item.repo_arch.clone(),
                broken: kept,
                since: item.since,
            };
            let ghost out_old = item_views(out@);
            proof {
                assert(filtered@.maintainers =~= iv.maintainers);
                assert(filtered@ == with_broken(iv, kept_caps(data, release@, iv)));
            }
            out.push(filtered);
            proof {
                lemma_drop_suppressed_snoc(data, release@, itemsv.subrange(0, i as int), iv);
                assert(item_views(out@) =~= out_old.push(filtered@));
            }
        } else {
            proof {
                lemma_drop_suppressed_snoc(data, release@, itemsv.subrange(0, i as int), iv);
            }
        }
        proof {
            assert(itemsv.subrange(0, i + 1) =~= itemsv.subrange(0, i as int).push(iv));
        }
        i = i + 1;
    }
    proof {
        assert(itemsv.subrange(0, itemsv.len() as int) =~= itemsv);
    }
    out
}

/// Override-drop law: every record after override filtering is an input
/// record whose capability list was filtered — so a subsequence of the
/// parsed list — and is never empty.
pub proof fn lemma_override_drop(
    data: crate::overrides::OverrideDataV,
    release: Seq<char>,
    items: Seq<BrokenItemV>,
)
    ensures
        forall|i: int|
            0 <= i < drop_suppressed(data, release, items).len() ==> (#[trigger] drop_suppressed(
                data,
                release,
                items,
            )[i]).broken.len() > 0,
        forall|i: int|
            0 <= i < drop_suppressed(data, release, items).len() ==> exists|j: int|
                0 <= j < items.len() && #[trigger] drop_suppressed(data, release, items)[i]
                    == with_broken(items[j], kept_caps(data, release, items[j])),
    decreases items.len(),
{
    if items.len() > 0 {
        let t = items.subrange(1, items.len() as int);
        lemma_override_drop(data, release, t);
        let kept = kept_caps(data, release, items[0]);
        let rest = drop_suppressed(data, release, t);
        let whole = drop_suppressed(data, release, items);
        assert forall|i: int| 0 <= i < whole.len() implies (#[trigger] whole[i]).broken.len() > 0
            && (exists|j: int|
            0 <= j < items.len() && whole[i] == with_broken(
                items[j],
                kept_caps(data, release, items[j]),
            )) by {
            if kept.len() == 0 {
                assert(whole[i] == rest[i]);
                let j0 = choose|j0: int|
                    0 <= j0 < t.len() && rest[i] == with_broken(
                        t[j0],
                        kept_caps(data, release, t[j0]),
                    );
                assert(t[j0] == items[j0 + 1]);
                assert(whole[i] == with_broken(
                    items[j0 + 1],
                    kept_caps(data, release, items[j0 + 1]),
                ));
            } else {
                if i == 0 {
                    assert(whole[0] == with_broken(items[0], kept));
                } else {
                    assert(whole[i] == rest[i - 1]);
                    let j0 = choose|j0: int|
                        0 <= j0 < t.len() && rest[i - 1] == with_broken(
                            t[j0],
                            kept_caps(data, release, t[j0]),
                        );
                    assert(t[j0] == items[j0 + 1]);
                    assert(whole[i] == with_broken(
                        items[j0 + 1],
                        kept_caps(data, release, items[j0 + 1]),
                    ));
                }
            }
        }
    }
}

/// A content listing parsed after trimming, or `None` where a line is
/// malformed.
pub open spec fn parsed_arch_contents(text: Seq<char>) -> Option<Seq<PackageV>> {
    if crate::parse::repoquery_ok(crate::text::trim_view(text)) {
        Some(crate::parse::repoquery_packages(crate::text::trim_view(text)))
    } else {
        None
    }
}

/// Every architecture's content listing parses.
pub open spec fn all_contents_parse(texts: Seq<Seq<char>>) -> bool {
    forall|k: int| 0 <= k < texts.len() ==> parsed_arch_contents(#[trigger] texts[k]) is Some
}

/// The parsed content listing of every architecture.
pub open spec fn parsed_all(texts: Seq<Seq<char>>) -> Seq<Seq<PackageV>> {
    Seq::new(texts.len(), |k: int| parsed_arch_contents(texts[k]).unwrap())
}

/// The closure records of one architecture: each checked repository's
/// output trimmed and parsed, concatenated in order; `None` where one
/// fails.
pub open spec fn arch_closure_deps(texts: Seq<Seq<char>>) -> Option<Seq<BrokenDepV>>
    decreases texts.len(),
{
    if texts.len() == 0 {
        Some(Seq::empty())
    } else {
        match crate::parse::closure_records(crate::text::trim_view(texts[0])) {
            None => None,
            Some(ds) => match arch_closure_deps(texts.subrange(1, texts.len() as int)) {
                None => None,
                Some(more) => Some(ds + more),
            },
        }
    }
}

/// One architecture's records: contents parsed, closure outputs parsed and
/// concatenated, then joined against the listing's binary-to-source map.
pub open spec fn arch_pipeline(
    arch: Seq<char>,
    content_text: Seq<char>,
    closure_texts: Seq<Seq<char>>,
    admins: Seq<(Seq<char>, Seq<char>)>,
    maints: Seq<(Seq<char>, Seq<Seq<char>>)>,
) -> Option<Seq<BrokenItemV>> {
    match parsed_arch_contents(content_text) {
        None => None,
        Some(ps) => match arch_closure_deps(closure_texts) {
            None => None,
            Some(deps) => if join_ok(deps, source_map_view(ps)) {
                Some(
                    deps.map_values(
                        |d: BrokenDepV|
                            joined_item(d, source_map_view(ps), admins, maints, arch),
                    ),
                )
            } else {
                None
            },
        },
    }
}

/// The records of the architectures from the front of these sequences,
/// each filtered by the exclusion rule against `css`, concatenated.
pub open spec fn pipeline_over(
    names: Seq<Seq<char>>,
    ctexts: Seq<Seq<char>>,
    cltexts: Seq<Seq<Seq<char>>>,
    css: Seq<Seq<PackageV>>,
    admins: Seq<(Seq<char>, Seq<char>)>,
    maints: Seq<(Seq<char>, Seq<Seq<char>>)>,
) -> Option<Seq<BrokenItemV>>
    decreases names.len(),
{
    if names.len() == 0 {
        Some(Seq::empty())
    } else {
        match arch_pipeline(names[0], ctexts[0], cltexts[0], admins, maints) {
            None => None,
            Some(items) => match pipeline_over(
                names.subrange(1, names.len() as int),
                ctexts.subrange(1, ctexts.len() as int),
                cltexts.subrange(1, cltexts.len() as int),
                css,
                admins,
                maints,
            ) {
                None => None,
                Some(rest) => Some(
                    items.filter(
                        |it: BrokenItemV|
                            kept_after_exclusion(
                                it,
                                css,
                                parsed_arch_contents(ctexts[0]).unwrap(),
                            ),
                    ) + rest,
                ),
            },
        }
    }
}

/// The whole generation pipeline before override filtering: all content
/// listings parsed first, then each architecture's closure joined and
/// exclusion-filtered, in architecture order.
pub open spec fn full_pipeline(
    names: Seq<Seq<char>>,
    ctexts: Seq<Seq<char>>,
    cltexts: Seq<Seq<Seq<char>>>,
    admins: Seq<(Seq<char>, Seq<char>)>,
    maints: Seq<(Seq<char>, Seq<Seq<char>>)>,
) -> Option<Seq<BrokenItemV>> {
    if !all_contents_parse(ctexts) {
        None
    } else {
        pipeline_over(names, ctexts, cltexts, parsed_all(ctexts), admins, maints)
    }
}

/// The views of the per-architecture closure outputs.
pub open spec fn closure_texts_views(s: Seq<Vec<String>>) -> Seq<Seq<Seq<char>>> {
    s.map_values(|v: Vec<String>| string_views(v@))
}

/// Trim and parse each checked repository's closure output and concatenate
/// the records; the first malformed output is an error.
fn parse_arch_closures(closures: &Vec<String>) -> (r: Result<Vec<BrokenDep>, String>)
    ensures
        match r {
            Ok(v) => arch_closure_deps(string_views(closures@)) == Some(
                v@.map_values(|d: BrokenDep| d@),
            ),
            Err(_) => arch_closure_deps(string_views(closures@)) is None,
        },
{
    let ghost texts = string_views(closures@);
    let mut deps: Vec<BrokenDep> = Vec::new();
    let mut t: usize = 0;
    proof {
        assert(texts.subrange(0, texts.len() as int) =~= texts);
        if arch_closure_deps(texts) is Some {
            assert(deps@.map_values(|d: BrokenDep| d@) + arch_closure_deps(texts).unwrap()
                =~= arch_closure_deps(texts).unwrap());
        }
    }
    while t < closures.len()
        invariant
            0 <= t <= closures@.len(),
            texts == string_views(closures@),
            texts.len() == closures@.len(),
            arch_closure_deps(texts) == (match arch_closure_deps(
                texts.subrange(t as int, texts.len() as int),
            ) {
                None => None::<Seq<BrokenDepV>>,
                Some(more) => Some(deps@.map_values(|d: BrokenDep| d@) + more),
            }),
        decreases closures@.len() - t,
    {
        let ghost rest_texts = texts.subrange(t as int, texts.len() as int);
        proof {
            assert(rest_texts[0] == texts[t as int]);
            assert(texts[t as int] == closures@[t as int]@);
            assert(rest_texts.subrange(1, rest_texts.len() as int) =~= texts.subrange(
                t + 1,
                texts.len() as int,
            ));
        }
        let trimmed = crate::text::trim_str(closures[t].as_str());
        match crate::parse::parse_repoclosure(trimmed) {
            Ok(mut ds) => {
                let ghost deps_old = deps@.map_values(|d: BrokenDep| d@);
                let ghost dsv = ds@.map_values(|d: BrokenDep| d@);
                deps.append(&mut ds);
                proof {
                    assert(deps@.map_values(|d: BrokenDep| d@) =~= deps_old + dsv);
                    if arch_closure_deps(texts.subrange(t + 1, texts.len() as int)) is Some {
                        let more = arch_closure_deps(
                            texts.subrange(t + 1, texts.len() as int),
                        ).unwrap();
                        assert((deps_old + dsv) + more =~= deps_old + (dsv + more));
                    }
                }
            },
            Err(e) => {
                proof {
                    assert(arch_closure_deps(rest_texts) is None);
                }
                return Err(e);
            },
        }
        t = t + 1;
    }
    proof {
        assert(texts.subrange(texts.len() as int, texts.len() as int)
            =~= Seq::<Seq<char>>::empty());
        assert(arch_closure_deps(Seq::<Seq<char>>::empty()) == Some(Seq::<BrokenDepV>::empty()));
        assert(deps@.map_values(|d: BrokenDep| d@) + Seq::<BrokenDepV>::empty()
            =~= deps@.map_values(|d: BrokenDep| d@));
    }
    Ok(deps)
}

/// Generate the published records of one matrix entry from the raw tool
/// outputs: parse each architecture's content listing and closure outputs,
/// join each record with its source, administrator and maintainers, drop
/// source records excluded by the architecture-exclusion rule, filter
/// capabilities through the override engine, drop emptied records, and
/// sort by `(source, package, arch)`. The result is exactly the pipeline's
/// records up to that order; errors surface the offending input.
pub fn get_repo_closure(
    release: &str,
    arches: &Vec<String>,
    contents_outputs: &Vec<String>,
    closure_outputs: &Vec<Vec<String>>,
    overrides: &mut crate::overrides::Overrides,
    admins: &Vec<(String, String)>,
    maintainers: &Vec<(String, Vec<String>)>,
) -> (r: Result<Vec<BrokenItem>, String>)
    requires
        arches@.len() == contents_outputs@.len(),
        arches@.len() == closure_outputs@.len(),
    ensures
        final(overrides).data == old(overrides).data,
        match r {
            Ok(v) => ({
                let pipe = full_pipeline(
                    string_views(arches@),
                    string_views(contents_outputs@),
                    closure_texts_views(closure_outputs@),
                    table_view(admins@),
                    maint_view(maintainers@),
                );
                &&& pipe is Some
                &&& (forall|i: int|
                    0 <= i && i + 1 < v@.len() ==> item_le(#[trigger] v@[i]@, v@[i + 1]@))
                &&& item_views(v@).to_multiset() == drop_suppressed(
                    old(overrides)@.data,
                    release@,
                    pipe.unwrap(),
                ).to_multiset()
                &&& table_view(final(overrides).stats@) == items_bumped(
                    old(overrides)@.data,
                    release@,
                    pipe.unwrap(),
                    table_view(old(overrides).stats@),
                )
            }),
            Err(_) => full_pipeline(
                string_views(arches@),
                string_views(contents_outputs@),
                closure_texts_views(closure_outputs@),
                table_view(admins@),
                maint_view(maintainers@),
            ) is None && final(overrides).stats == old(overrides).stats,
        },
{
    let ghost namesv = string_views(arches@);
    let ghost ctextv = string_views(contents_outputs@);
    let ghost cltextv = closure_texts_views(closure_outputs@);
    let ghost adminv = table_view(admins@);
    let ghost maintv = maint_view(maintainers@);

    let mut all_contents: Vec<Vec<Package>> = Vec::new();
    let mut k: usize = 0;
    while k < contents_outputs.len()
        invariant
            0 <= k <= contents_outputs@.len(),
            ctextv == string_views(contents_outputs@),
            ctextv.len() == contents_outputs@.len(),
            all_contents@.len() == k,
            forall|j: int|
                0 <= j < k ==> parsed_arch_contents(#[trigger] ctextv[j]) is Some,
            forall|j: int|
                0 <= j < k ==> (#[trigger] all_contents@[j])@.map_values(|p: Package| p@)
                    == parsed_arch_contents(ctextv[j]).unwrap(),
        decreases contents_outputs@.len() - k,
    {
        let trimmed = crate::text::trim_str(contents_outputs[k].as_str());
        proof {
            assert(ctextv[k as int] == contents_outputs@[k as int]@);
        }
        match crate::parse::parse_repoquery(trimmed) {
            Ok(ps) => {
                proof {
                    assert(parsed_arch_contents(ctextv[k as int]) == Some(
                        ps@.map_values(|p: Package| p@),
                    ));
                }
                all_contents.push(ps);
            },
            Err(e) => {
                proof {
                    assert(parsed_arch_contents(ctextv[k as int]) is None);
                    assert(!all_contents_parse(ctextv));
                }
                return Err(e);
            },
        }
        k = k + 1;
    }
    proof {
        assert(all_contents_parse(ctextv));
        assert(contents_views(all_contents@) =~= parsed_all(ctextv));
    }
    let ghost css = parsed_all(ctextv);

    let mut result: Vec<BrokenItem> = Vec::new();
    let mut a: usize = 0;
    proof {
        assert(namesv.subrange(0, namesv.len() as int) =~= namesv);
        assert(ctextv.subrange(0, ctextv.len() as int) =~= ctextv);
        assert(cltextv.subrange(0, cltextv.len() as int) =~= cltextv);
        assert(item_views(result@) + pipeline_over(
            namesv,
            ctextv,
            cltextv,
            css,
            adminv,
            maintv,
        ).unwrap() =~= pipeline_over(namesv, ctextv, cltextv, css, adminv, maintv).unwrap());
    }
    while a < arches.len()
        invariant
            0 <= a <= arches@.len(),
            arches@.len() == contents_outputs@.len(),
            arches@.len() == closure_outputs@.len(),
            all_contents@.len() == arches@.len(),
            namesv == string_views(arches@),
            namesv.len() == arches@.len(),
            ctextv == string_views(contents_outputs@),
            cltextv == closure_texts_views(closure_outputs@),
            cltextv.len() == closure_outputs@.len(),
            css == parsed_all(ctextv),
            adminv == table_view(admins@),
            maintv == maint_view(maintainers@),
            contents_views(all_contents@) == css,
            all_contents_parse(ctextv),
            pipeline_over(namesv, ctextv, cltextv, css, adminv, maintv) == (match pipeline_over(
                namesv.subrange(a as int, namesv.len() as int),
                ctextv.subrange(a as int, ctextv.len() as int),
                cltextv.subrange(a as int, cltextv.len() as int),
                css,
                adminv,
                maintv,
            ) {
                None => None::<Seq<BrokenItemV>>,
                Some(rest) => Some(item_views(result@) + rest),
            }),
        decreases arches@.len() - a,
    {
        let ghost names_rest = namesv.subrange(a as int, namesv.len() as int);
        let ghost ctext_rest = ctextv.subrange(a as int, ctextv.len() as int);
        let ghost cltext_rest = cltextv.subrange(a as int, cltextv.len() as int);
        proof {
            assert(names_rest[0] == namesv[a as int]);
            assert(ctext_rest[0] == ctextv[a as int]);
            assert(cltext_rest[0] == cltextv[a as int]);
            assert(names_rest.subrange(1, names_rest.len() as int) =~= namesv.subrange(
                a + 1,
                namesv.len() as int,
            ));
            assert(ctext_rest.subrange(1, ctext_rest.len() as int) =~= ctextv.subrange(
                a + 1,
                ctextv.len() as int,
            ));
            assert(cltext_rest.subrange(1, cltext_rest.len() as int) =~= cltextv.subrange(
                a + 1,
                cltextv.len() as int,
            ));
            assert(namesv[a as int] == arches@[a as int]@);
            assert(cltextv[a as int] == string_views(closure_outputs@[a as int]@));
            assert(contents_views(all_contents@)[a as int] == all_contents@[a as int]@.map_values(
                |p: Package| p@,
            ));
        }
        let contents = &all_contents[a];
        let source_map = get_source_map(contents);
        proof {
            assert(parsed_arch_contents(ctextv[a as int]) == Some(
                contents@.map_values(|p: Package| p@),
            ));
        }

        let closures = &closure_outputs[a];
        let ghost this_cltext = cltextv[a as int];
        let deps = match parse_arch_closures(closures) {
            Ok(v) => v,
            Err(e) => {
                proof {
                    assert(arch_pipeline(
                        names_rest[0],
                        ctext_rest[0],
                        cltext_rest[0],
                        adminv,
                        maintv,
                    ) is None);
                    assert(pipeline_over(
                        names_rest,
                        ctext_rest,
                        cltext_rest,
                        css,
                        adminv,
                        maintv,
                    ) is None);
                }
                return Err(e);
            },
        };
        proof {
            assert(arch_closure_deps(this_cltext) == Some(deps@.map_values(|d: BrokenDep| d@)));
        }

        let arch_name = &arches[a];
        let items = match join_broken_deps(
            &deps,
            &source_map,
            admins,
            maintainers,
            arch_name.as_str(),
        ) {
            Ok(v) => v,
            Err(e) => {
                proof {
                    assert(arch_pipeline(
                        names_rest[0],
                        ctext_rest[0],
                        cltext_rest[0],
                        adminv,
                        maintv,
                    ) is None);
                    assert(pipeline_over(
                        names_rest,
                        ctext_rest,
                        cltext_rest,
                        css,
                        adminv,
                        maintv,
                    ) is None);
                }
                return Err(e);
            },
        };
        let ghost arch_items = arch_pipeline(
            names_rest[0],
            ctext_rest[0],
            cltext_rest[0],
            adminv,
            maintv,
        ).unwrap();
        proof {
            assert(item_views(items@) == arch_items);
        }

        let ghost this_cs = parsed_arch_contents(ctextv[a as int]).unwrap();
        let mut kept_items: Vec<BrokenItem> = Vec::new();
        let mut q: usize = 0;
        proof {
            assert(arch_items.subrange(0, 0) =~= Seq::<BrokenItemV>::empty());
            assert(item_views(kept_items@) =~= arch_items.subrange(0, 0).filter(
                |it: BrokenItemV| kept_after_exclusion(it, css, this_cs),
            ));
        }
        while q < items.len()
            invariant
                0 <= q <= items@.len(),
                item_views(items@) == arch_items,
                arch_items.len() == items@.len(),
                this_cs == parsed_arch_contents(ctextv[a as int]).unwrap(),
                css == parsed_all(ctextv),
                contents_views(all_contents@) == css,
                all_contents@.len() == arches@.len(),
                0 <= a < arches@.len(),
                ctextv == string_views(contents_outputs@),
                arches@.len() == contents_outputs@.len(),
                item_views(kept_items@) == arch_items.subrange(0, q as int).filter(
                    (|it: BrokenItemV| kept_after_exclusion(it, css, this_cs)),
                ),
            decreases items@.len() - q,
        {
            broadcast use vstd::prelude::Seq::lemma_filter_push;

            let item = &items[q];
            let ghost iv = arch_items[q as int];
            proof {
                assert(iv == item@);
                reveal_strlit("src");
            }
            let mut keep = true;
            if str_equal(item.arch.as_str(), "src") {
                proof {
                    let ghost_contents = all_contents@[a as int];
                    assert(contents_views(all_contents@)[a as int] == ghost_contents@.map_values(
                        |p: Package| p@,
                    ));
                    assert(ghost_contents@.map_values(|p: Package| p@) == this_cs);
                }
                if source_built_somewhere(&all_contents, item.source.as_str()) {
                    if !source_built_on(&all_contents[a], item.source.as_str()) {
                        keep = false;
                    }
                }
            }
            proof {
                assert(keep == kept_after_exclusion(iv, css, this_cs));
                assert(arch_items.subrange(0, q + 1) =~= arch_items.subrange(0, q as int).push(
                    iv,
                ));
            }
            if keep {
                let ghost kept_old = item_views(kept_items@);
                let copy = BrokenItem {
                    source: item.source.clone(),
                    package: item.package.clone(),
                    epoch: item.epoch.clone(),
                    version: item.version.clone(),
                    release: item.release.clone(),
                    arch: item.arch.clone(),
                    admin: item.admin.clone(),
                    maintainers: crate::data::clone_string_vec(&item.maintainers),
                    repo: item.repo.clone(),
                    repo_arch: item.repo_arch.clone(),
                    broken: crate::data::clone_string_vec(&item.broken),
                    since: item.since,
                };
                proof {
                    assert(copy@.maintainers =~= iv.maintainers);
                    assert(copy@.broken =~= iv.broken);
                    assert(copy@ == iv);
                }
                kept_items.push(copy);
                proof {
                    assert(item_views(kept_items@) =~= kept_old.push(iv));
                }
            }
            q = q + 1;
        }
        proof {
            assert(arch_items.subrange(0, arch_items.len() as int) =~= arch_items);
        }

        let ghost result_old = item_views(result@);
        result.append(&mut kept_items);
        proof {
            let filtered = arch_items.filter(
                |it: BrokenItemV| kept_after_exclusion(it, css, this_cs),
            );
            assert(item_views(result@) =~= result_old + filtered);
            let after = pipeline_over(
                namesv.subrange(a + 1, namesv.len() as int),
                ctextv.subrange(a + 1, ctextv.len() as int),
                cltextv.subrange(a + 1, cltextv.len() as int),
                css,
                adminv,
                maintv,
            );
            if after is Some {
                assert((result_old + filtered) + after.unwrap() =~= result_old + (filtered
                    + after.unwrap()));
            }
        }
        a = a + 1;
    }
    proof {
        assert(namesv.subrange(namesv.len() as int, namesv.len() as int)
            =~= Seq::<Seq<char>>::empty());
        assert(pipeline_over(
            Seq::<Seq<char>>::empty(),
            ctextv.subrange(arches@.len() as int, ctextv.len() as int),
            cltextv.subrange(arches@.len() as int, cltextv.len() as int),
            css,
            adminv,
            maintv,
        ) == Some(Seq::<BrokenItemV>::empty()));
        assert(item_views(result@) + Seq::<BrokenItemV>::empty() =~= item_views(result@));
        assert(pipeline_over(namesv, ctextv, cltextv, css, adminv, maintv) == Some(
            item_views(result@),
        ));
    }

    let filtered = apply_overrides(overrides, release, result);
    let sorted = sort_broken_items(filtered);
    Ok(sorted)
}

} // verus!
