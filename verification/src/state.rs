//! The cross-cycle continuity layer: carrying first-seen timestamps from
//! the previous published array into the fresh one.

use vstd::prelude::*;

use crate::data::{clone_string_vec, BrokenItem, BrokenItemV};
use crate::repo::item_views;

verus! {

/// Two records describe the same breakage across cycles: same package,
/// repository and closure architecture.
pub open spec fn same_key(a: BrokenItemV, b: BrokenItemV) -> bool {
    a.package == b.package && a.repo == b.repo && a.repo_arch == b.repo_arch
}

/// Index of the first old record sharing the new record's key, or `-1`.
pub open spec fn match_index(old_items: Seq<BrokenItemV>, n: BrokenItemV) -> int
    decreases old_items.len(),
{
    if old_items.len() == 0 {
        -1
    } else if same_key(old_items[0], n) {
        0
    } else if match_index(old_items.subrange(1, old_items.len() as int), n) == -1 {
        -1
    } else {
        1 + match_index(old_items.subrange(1, old_items.len() as int), n)
    }
}

/// The first-seen timestamp a fresh record carries: the matching old
/// record's timestamp where one exists and is set, the present moment
/// otherwise.
pub open spec fn carried_since(old_items: Seq<BrokenItemV>, n: BrokenItemV, now: int) -> Option<
    int,
> {
    let i = match_index(old_items, n);
    if i >= 0 && old_items[i].since is Some {
        old_items[i].since
    } else {
        Some(now)
    }
}

/// `item` with its timestamp replaced.
pub open spec fn with_since(item: BrokenItemV, s: Option<int>) -> BrokenItemV {
    BrokenItemV {
        source: item.source,
        package: item.package,
        epoch: item.epoch,
        version: item.version,
        release: item.release,
        arch: item.arch,
        admin: item.admin,
        maintainers: item.maintainers,
        repo: item.repo,
        repo_arch: item.repo_arch,
        broken: item.broken,
        since: s,
    }
}

proof fn lemma_match_index_bounds(old_items: Seq<BrokenItemV>, n: BrokenItemV)
    ensures
        -1 <= match_index(old_items, n) < old_items.len(),
        match_index(old_items, n) >= 0 ==> same_key(old_items[match_index(old_items, n)], n),
    decreases old_items.len(),
{
    if old_items.len() > 0 && !same_key(old_items[0], n) {
        lemma_match_index_bounds(old_items.subrange(1, old_items.len() as int), n);
    }
}

proof fn lemma_match_index_witness(old_items: Seq<BrokenItemV>, n: BrokenItemV, k: int)
    requires
        0 <= k < old_items.len(),
        same_key(old_items[k], n),
        forall|j: int| 0 <= j < k ==> !same_key(#[trigger] old_items[j], n),
    ensures
        match_index(old_items, n) == k,
    decreases old_items.len(),
{
    if k > 0 {
        let t = old_items.subrange(1, old_items.len() as int);
        assert(forall|j: int| 0 <= j < k - 1 ==> (#[trigger] t[j]) == old_items[j + 1]);
        lemma_match_index_witness(t, n, k - 1);
    }
}

proof fn lemma_match_index_none(old_items: Seq<BrokenItemV>, n: BrokenItemV)
    requires
        forall|j: int| 0 <= j < old_items.len() ==> !same_key(#[trigger] old_items[j], n),
    ensures
        match_index(old_items, n) == -1,
    decreases old_items.len(),
{
    if old_items.len() > 0 {
        let t = old_items.subrange(1, old_items.len() as int);
        assert(forall|j: int| 0 <= j < t.len() ==> (#[trigger] t[j]) == old_items[j + 1]);
        lemma_match_index_none(t, n);
    }
}

/// Whether two records share the continuity key.
fn same_key_exec(a: &BrokenItem, b: &BrokenItem) -> (r: bool)
    ensures
        r == same_key(a@, b@),
{
    crate::text::str_equal(a.package.as_str(), b.package.as_str()) && crate::text::str_equal(
        a.repo.as_str(),
        b.repo.as_str(),
    ) && crate::text::str_equal(a.repo_arch.as_str(), b.repo_arch.as_str())
}

/// Continuity law, applied between two cycles: every fresh record that a
/// previous record matches on `(package, repo, repo_arch)` keeps that
/// record's first-seen timestamp; every other fresh record is stamped with
/// the present moment.
pub fn transfer_since(new_items: Vec<BrokenItem>, old_items: &Vec<BrokenItem>, now: i64) -> (r:
    Vec<BrokenItem>)
    ensures
        r@.len() == new_items@.len(),
        forall|i: int|
            0 <= i < r@.len() ==> (#[trigger] r@[i])@ == with_since(
                new_items@[i]@,
                carried_since(item_views(old_items@), new_items@[i]@, now as int),
            ),
{
    let ghost oldv = item_views(old_items@);
    let mut out: Vec<BrokenItem> = Vec::new();
    let mut i: usize = 0;
    while i < new_items.len()
        invariant
            0 <= i <= new_items@.len(),
            oldv == item_views(old_items@),
            oldv.len() == old_items@.len(),
            out@.len() == i,
            forall|j: int|
                0 <= j < i ==> (#[trigger] out@[j])@ == with_since(
                    new_items@[j]@,
                    carried_since(oldv, new_items@[j]@, now as int),
                ),
        decreases new_items@.len() - i,
    {
        let item = &new_items[i];
        let mut since: Option<i64> = None;
        let mut k: usize = 0;
        let mut found = false;
        while k < old_items.len() && !found
            invariant
                0 <= k <= old_items@.len(),
                oldv == item_views(old_items@),
                oldv.len() == old_items@.len(),
                item@ == new_items@[i as int]@,
                0 <= i < new_items@.len(),
                !found ==> since is None && (forall|j: int|
                    0 <= j < k ==> !same_key(#[trigger] oldv[j], item@)),
                found ==> match_index(oldv, item@) >= 0 && (match since {
                    Some(t) => Some(t as int),
                    None => None::<int>,
                }) == oldv[match_index(oldv, item@)].since,
            decreases old_items@.len() - k,
        {
            let candidate = &old_items[k];
            proof {
                assert(oldv[k as int] == candidate@);
            }
            if same_key_exec(candidate, item) {
                proof {
                    lemma_match_index_witness(oldv, item@, k as int);
                }
                since = candidate.since;
                found = true;
            }
            k = k + 1;
        }
        proof {
            if !found {
                lemma_match_index_none(oldv, item@);
            } else {
                lemma_match_index_bounds(oldv, item@);
            }
        }
        let stamped: Option<i64> = match since {
            Some(t) => Some(t),
            None => Some(now),
        };
        proof {
            assert((match stamped {
                Some(t) => Some(t as int),
                None => None::<int>,
            }) == carried_since(oldv, item@, now as int));
        }
        let copy = BrokenItem {
            source: item.source.clone(),
            package: item.package.clone(),
            epoch: item.epoch.clone(),
            version: item.version.clone(),
            release: item.release.clone(),
            arch: item.arch.clone(),
            admin: item.admin.clone(),
            maintainers: clone_string_vec(&item.maintainers),
            repo: item.repo.clone(),
            repo_arch: item.repo_arch.clone(),
            broken: clone_string_vec(&item.broken),
            since: stamped,
        };
        proof {
            assert(copy@.maintainers =~= item@.maintainers);
            assert(copy@.broken =~= item@.broken);
            assert(copy@ == with_since(item@, carried_since(oldv, item@, now as int)));
        }
        out.push(copy);
        i = i + 1;
    }
    out
}

/// How long the scheduler sleeps between cycles: the configured interval
/// less the time the cycle kept busy, saturating at zero.
pub fn wait_seconds(interval_seconds: u64, busy_seconds: u64) -> (r: u64)
    ensures
        busy_seconds >= interval_seconds ==> r == 0,
        busy_seconds < interval_seconds ==> r == interval_seconds - busy_seconds,
{
    if busy_seconds >= interval_seconds {
        0
    } else {
        interval_seconds - busy_seconds
    }
}

/// The snapshot key of a matrix entry: the release name, with `-testing`
/// appended for the testing variant.
pub fn release_key(release: &str, with_testing: bool) -> (r: String)
    ensures
        !with_testing ==> r@ == release@,
        with_testing ==> r@ == release@ + "-testing"@,
{
    let mut s = String::from_str(release);
    if with_testing {
        s.append("-testing");
    }
    s
}

} // verus!
