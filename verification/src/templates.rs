//! The data behind the index page: release keys, per-release counts, and
//! the last-refreshed stamp, each list in the order the page shows it.

use vstd::prelude::*;

use crate::text::{lemma_lex_le_antisym, lemma_lex_le_total, lemma_lex_le_trans, lex_le};
use vstd::multiset::Multiset;

verus! {

/// What the index page shows: the release keys, the per-release
/// broken-item counts, and the last-refreshed stamp.
#[derive(Clone, Debug, PartialEq)]
pub struct Index {
    pub releases: Vec<String>,
    pub stats: Vec<(String, usize)>,
    pub date_refreshed: String,
}

impl Index {
    /// Carry the prepared lists into the page data unchanged.
    pub fn new(releases: Vec<String>, stats: Vec<(String, usize)>, date_refreshed: String) -> (r:
        Index)
        ensures
            r.releases == releases,
            r.stats == stats,
            r.date_refreshed == date_refreshed,
    {
        Index { releases, stats, date_refreshed }
    }
}

/// Descending order on release keys.
pub open spec fn str_ge(a: Seq<char>, b: Seq<char>) -> bool {
    lex_le(b, a)
}

/// Sort release keys in descending order; the result is a permutation of
/// the input.
pub fn sort_strings_desc(items: Vec<String>) -> (r: Vec<String>)
    ensures
        r@.len() == items@.len(),
        forall|i: int| 0 <= i && i + 1 < r@.len() ==> str_ge(#[trigger] r@[i]@, r@[i + 1]@),
        crate::data::string_views(r@).to_multiset() == crate::data::string_views(
            items@,
        ).to_multiset(),
{
    broadcast use vstd::seq_lib::group_to_multiset_ensures;

    let mut rest = items;
    let mut out: Vec<String> = Vec::new();
    proof {
        assert(crate::data::string_views(out@).to_multiset() =~= Multiset::<Seq<char>>::empty());
        assert(crate::data::string_views(out@).to_multiset().add(
            crate::data::string_views(rest@).to_multiset(),
        ) =~= crate::data::string_views(rest@).to_multiset());
    }
    while rest.len() > 0
        invariant
            out@.len() + rest@.len() == items@.len(),
            forall|i: int| 0 <= i && i + 1 < out@.len() ==> str_ge(#[trigger] out@[i]@, out@[i + 1]@),
            forall|i: int, j: int|
                0 <= i < out@.len() && 0 <= j < rest@.len() ==> str_ge(
                    (#[trigger] out@[i])@,
                    (#[trigger] rest@[j])@,
                ),
            crate::data::string_views(out@).to_multiset().add(
                crate::data::string_views(rest@).to_multiset(),
            ) == crate::data::string_views(items@).to_multiset(),
        decreases rest@.len(),
    {
        let mut m: usize = 0;
        let mut j: usize = 1;
        proof {
            lemma_lex_le_total(rest@[0]@, rest@[0]@);
        }
        while j < rest.len()
            invariant
                0 <= m < j <= rest@.len(),
                forall|q: int| 0 <= q < j ==> str_ge(rest@[m as int]@, (#[trigger] rest@[q])@),
            decreases rest@.len() - j,
        {
            let gt = crate::text::str_le(rest[m].as_str(), rest[j].as_str())
                && !crate::text::str_le(rest[j].as_str(), rest[m].as_str());
            if gt {
                proof {
                    assert forall|q: int| 0 <= q < j + 1 implies str_ge(
                        rest@[j as int]@,
                        (#[trigger] rest@[q])@,
                    ) by {
                        if q == j {
                            lemma_lex_le_total(rest@[j as int]@, rest@[j as int]@);
                        } else {
                            lemma_lex_le_trans(rest@[q]@, rest@[m as int]@, rest@[j as int]@);
                        }
                    }
                }
                m = j;
            } else {
                proof {
                    lemma_lex_le_total(rest@[m as int]@, rest@[j as int]@);
                }
            }
            j = j + 1;
        }
        let ghost rest_old = rest@;
        let ghost out_old = out@;
        let x = rest.remove(m);
        proof {
            assert(crate::data::string_views(rest_old.remove(m as int))
                =~= crate::data::string_views(rest_old).remove(m as int));
            assert(crate::data::string_views(rest_old)[m as int] == x@);
            crate::data::string_views(rest_old).to_multiset_ensures();
            assert(crate::data::string_views(rest_old).remove(m as int).to_multiset()
                =~= crate::data::string_views(rest_old).to_multiset().remove(x@));
        }
        out.push(x);
        proof {
            assert(crate::data::string_views(out@) =~= crate::data::string_views(out_old).push(
                x@,
            ));
            crate::data::string_views(out_old).to_multiset_ensures();
            assert(crate::data::string_views(out_old).push(x@).to_multiset()
                =~= crate::data::string_views(out_old).to_multiset().insert(x@));
            vstd::assert_multisets_equal!(
                crate::data::string_views(out_old).to_multiset().insert(x@).add(
                    crate::data::string_views(rest_old).to_multiset().remove(x@)),
                crate::data::string_views(out_old).to_multiset().add(
                    crate::data::string_views(rest_old).to_multiset())
            );
            assert(out@[out@.len() - 1] == x);
            assert forall|i: int, jj: int|
                0 <= i < out@.len() && 0 <= jj < rest@.len() implies str_ge(
                (#[trigger] out@[i])@,
                (#[trigger] rest@[jj])@,
            ) by {
                assert(rest@[jj] == rest_old[if jj < m as int {
                    jj
                } else {
                    jj + 1
                }]);
                if i < out@.len() - 1 {
                    assert(out@[i] == out_old[i]);
                }
            }
        }
    }
    proof {
        assert(crate::data::string_views(rest@).to_multiset() =~= Multiset::<Seq<char>>::empty());
        vstd::assert_multisets_equal!(
            crate::data::string_views(out@).to_multiset().add(Multiset::<Seq<char>>::empty()),
            crate::data::string_views(out@).to_multiset()
        );
    }
    out
}

/// The views of the per-release count list.
pub open spec fn stat_views(s: Seq<(String, usize)>) -> Seq<(Seq<char>, usize)> {
    s.map_values(|p: (String, usize)| (p.0@, p.1))
}

/// Descending order on `(key, count)` pairs: by key, then count.
pub open spec fn stat_ge(a: (Seq<char>, usize), b: (Seq<char>, usize)) -> bool {
    if a.0 != b.0 {
        lex_le(b.0, a.0)
    } else {
        a.1 >= b.1
    }
}

proof fn lemma_stat_ge_total(a: (Seq<char>, usize), b: (Seq<char>, usize))
    ensures
        stat_ge(a, b) || stat_ge(b, a),
{
    lemma_lex_le_total(a.0, b.0);
}

proof fn lemma_stat_ge_trans(a: (Seq<char>, usize), b: (Seq<char>, usize), c: (Seq<char>, usize))
    requires
        stat_ge(a, b),
        stat_ge(b, c),
    ensures
        stat_ge(a, c),
{
    if a.0 != b.0 && b.0 != c.0 {
        lemma_lex_le_trans(c.0, b.0, a.0);
        if a.0 == c.0 {
            lemma_lex_le_antisym(b.0, a.0);
        }
    }
}

/// Sort the per-release counts in descending `(key, count)` order; the
/// result is a permutation of the input.
pub fn sort_release_stats_desc(items: Vec<(String, usize)>) -> (r: Vec<(String, usize)>)
    ensures
        r@.len() == items@.len(),
        forall|i: int|
            0 <= i && i + 1 < r@.len() ==> stat_ge(
                #[trigger] stat_views(r@)[i],
                stat_views(r@)[i + 1],
            ),
        stat_views(r@).to_multiset() == stat_views(items@).to_multiset(),
{
    broadcast use vstd::seq_lib::group_to_multiset_ensures;

    let mut rest = items;
    let mut out: Vec<(String, usize)> = Vec::new();
    proof {
        assert(stat_views(out@).to_multiset() =~= Multiset::<(Seq<char>, usize)>::empty());
        assert(stat_views(out@).to_multiset().add(stat_views(rest@).to_multiset())
            =~= stat_views(rest@).to_multiset());
    }
    while rest.len() > 0
        invariant
            out@.len() + rest@.len() == items@.len(),
            forall|i: int|
                0 <= i && i + 1 < out@.len() ==> stat_ge(
                    #[trigger] stat_views(out@)[i],
                    stat_views(out@)[i + 1],
                ),
            forall|i: int, j: int|
                0 <= i < out@.len() && 0 <= j < rest@.len() ==> stat_ge(
                    #[trigger] stat_views(out@)[i],
                    #[trigger] stat_views(rest@)[j],
                ),
            stat_views(out@).to_multiset().add(stat_views(rest@).to_multiset()) == stat_views(
                items@,
            ).to_multiset(),
        decreases rest@.len(),
    {
        let mut m: usize = 0;
        let mut j: usize = 1;
        proof {
            lemma_stat_ge_total(stat_views(rest@)[0], stat_views(rest@)[0]);
        }
        while j < rest.len()
            invariant
                0 <= m < j <= rest@.len(),
                forall|q: int|
                    0 <= q < j ==> stat_ge(
                        stat_views(rest@)[m as int],
                        #[trigger] stat_views(rest@)[q],
                    ),
            decreases rest@.len() - j,
        {
            proof {
                assert(stat_views(rest@)[m as int] == (rest@[m as int].0@, rest@[m as int].1));
                assert(stat_views(rest@)[j as int] == (rest@[j as int].0@, rest@[j as int].1));
            }
            let key_eq = crate::text::str_equal(rest[m].0.as_str(), rest[j].0.as_str());
            let gt: bool = if !key_eq {
                crate::text::str_le(rest[m].0.as_str(), rest[j].0.as_str())
            } else {
                rest[m].1 < rest[j].1
            };
            if gt {
                proof {
                    assert(stat_ge(stat_views(rest@)[j as int], stat_views(rest@)[m as int]));
                    assert forall|q: int| 0 <= q < j + 1 implies stat_ge(
                        stat_views(rest@)[j as int],
                        #[trigger] stat_views(rest@)[q],
                    ) by {
                        if q == j {
                            lemma_stat_ge_total(
                                stat_views(rest@)[j as int],
                                stat_views(rest@)[j as int],
                            );
                        } else {
                            lemma_stat_ge_trans(
                                stat_views(rest@)[j as int],
                                stat_views(rest@)[m as int],
                                stat_views(rest@)[q],
                            );
                        }
                    }
                }
                m = j;
            } else {
                proof {
                    lemma_stat_ge_total(stat_views(rest@)[m as int], stat_views(rest@)[j as int]);
                }
            }
            j = j + 1;
        }
        let ghost rest_old = rest@;
        let ghost out_old = out@;
        let x = rest.remove(m);
        proof {
            assert(stat_views(rest_old.remove(m as int)) =~= stat_views(rest_old).remove(
                m as int,
            ));
            assert(stat_views(rest_old)[m as int] == (x.0@, x.1));
            stat_views(rest_old).to_multiset_ensures();
            assert(stat_views(rest_old).remove(m as int).to_multiset() =~= stat_views(
                rest_old,
            ).to_multiset().remove((x.0@, x.1)));
        }
        out.push(x);
        proof {
            assert(stat_views(out@) =~= stat_views(out_old).push((x.0@, x.1)));
            stat_views(out_old).to_multiset_ensures();
            assert(stat_views(out_old).push((x.0@, x.1)).to_multiset() =~= stat_views(
                out_old,
            ).to_multiset().insert((x.0@, x.1)));
            vstd::assert_multisets_equal!(
                stat_views(out_old).to_multiset().insert((x.0@, x.1)).add(
                    stat_views(rest_old).to_multiset().remove((x.0@, x.1))),
                stat_views(out_old).to_multiset().add(stat_views(rest_old).to_multiset())
            );
            assert forall|i: int, jj: int|
                0 <= i < out@.len() && 0 <= jj < rest@.len() implies stat_ge(
                #[trigger] stat_views(out@)[i],
                #[trigger] stat_views(rest@)[jj],
            ) by {
                assert(rest@[jj] == rest_old[if jj < m as int {
                    jj
                } else {
                    jj + 1
                }]);
                if i < out@.len() - 1 {
                    assert(out@[i] == out_old[i]);
                }
                assert(stat_views(out@)[out@.len() - 1] == (x.0@, x.1));
            }
        }
    }
    proof {
        assert(stat_views(rest@).to_multiset() =~= Multiset::<(Seq<char>, usize)>::empty());
        vstd::assert_multisets_equal!(
            stat_views(out@).to_multiset().add(Multiset::<(Seq<char>, usize)>::empty()),
            stat_views(out@).to_multiset()
        );
    }
    out
}

/// Sort the override hit counters by count, largest first; the result is a
/// permutation of the input.
pub fn sort_counters_desc(items: Vec<(String, u32)>) -> (r: Vec<(String, u32)>)
    ensures
        r@.len() == items@.len(),
        forall|i: int| 0 <= i && i + 1 < r@.len() ==> (#[trigger] r@[i]).1 >= r@[i + 1].1,
        crate::table::table_view(r@).to_multiset() == crate::table::table_view(
            items@,
        ).to_multiset(),
{
    broadcast use vstd::seq_lib::group_to_multiset_ensures;

    let mut rest = items;
    let mut out: Vec<(String, u32)> = Vec::new();
    proof {
        assert(crate::table::table_view(out@).to_multiset() =~= Multiset::<
            (Seq<char>, u32),
        >::empty());
        assert(crate::table::table_view(out@).to_multiset().add(
            crate::table::table_view(rest@).to_multiset(),
        ) =~= crate::table::table_view(rest@).to_multiset());
    }
    while rest.len() > 0
        invariant
            out@.len() + rest@.len() == items@.len(),
            forall|i: int| 0 <= i && i + 1 < out@.len() ==> (#[trigger] out@[i]).1 >= out@[i + 1].1,
            forall|i: int, j: int|
                0 <= i < out@.len() && 0 <= j < rest@.len() ==> (#[trigger] out@[i]).1 >= (
                #[trigger] rest@[j]).1,
            crate::table::table_view(out@).to_multiset().add(
                crate::table::table_view(rest@).to_multiset(),
            ) == crate::table::table_view(items@).to_multiset(),
        decreases rest@.len(),
    {
        let mut m: usize = 0;
        let mut j: usize = 1;
        while j < rest.len()
            invariant
                0 <= m < j <= rest@.len(),
                forall|q: int| 0 <= q < j ==> rest@[m as int].1 >= (#[trigger] rest@[q]).1,
            decreases rest@.len() - j,
        {
            if rest[j].1 > rest[m].1 {
                m = j;
            }
            j = j + 1;
        }
        let ghost rest_old = rest@;
        let ghost out_old = out@;
        let x = rest.remove(m);
        proof {
            assert(crate::table::table_view(rest_old.remove(m as int))
                =~= crate::table::table_view(rest_old).remove(m as int));
            assert(crate::table::table_view(rest_old)[m as int] == (x.0@, x.1));
            crate::table::table_view(rest_old).to_multiset_ensures();
            assert(crate::table::table_view(rest_old).remove(m as int).to_multiset()
                =~= crate::table::table_view(rest_old).to_multiset().remove((x.0@, x.1)));
        }
        out.push(x);
        proof {
            assert(crate::table::table_view(out@) =~= crate::table::table_view(out_old).push(
                (x.0@, x.1),
            ));
            crate::table::table_view(out_old).to_multiset_ensures();
            assert(crate::table::table_view(out_old).push((x.0@, x.1)).to_multiset()
                =~= crate::table::table_view(out_old).to_multiset().insert((x.0@, x.1)));
            vstd::assert_multisets_equal!(
                crate::table::table_view(out_old).to_multiset().insert((x.0@, x.1)).add(
                    crate::table::table_view(rest_old).to_multiset().remove((x.0@, x.1))),
                crate::table::table_view(out_old).to_multiset().add(
                    crate::table::table_view(rest_old).to_multiset())
            );
            assert forall|i: int, jj: int|
                0 <= i < out@.len() && 0 <= jj < rest@.len() implies (#[trigger] out@[i]).1 >= (
            #[trigger] rest@[jj]).1 by {
                assert(rest@[jj] == rest_old[if jj < m as int {
                    jj
                } else {
                    jj + 1
                }]);
                if i < out@.len() - 1 {
                    assert(out@[i] == out_old[i]);
                }
            }
        }
    }
    proof {
        assert(crate::table::table_view(rest@).to_multiset() =~= Multiset::<
            (Seq<char>, u32),
        >::empty());
        vstd::assert_multisets_equal!(
            crate::table::table_view(out@).to_multiset().add(Multiset::<(Seq<char>, u32)>::empty()),
            crate::table::table_view(out@).to_multiset()
        );
    }
    out
}

} // verus!
