//! Parsers for the packaged-artifact name grammar `N-[E:]V-R.A` and for the
//! two textual output grammars of the external dependency-resolution tool.

use vstd::prelude::*;

use crate::data::{BrokenDep, BrokenDepV, Package, PackageV};
use crate::text::{
    find_char, first_index_of, i32_str_val, is_i32_str, last_index_of, lemma_first_index_bounds,
    lemma_last_index_bounds, parse_i32, rfind_char, split_char, split_str, starts_with_view,
    str_starts_with, trim_str, trim_view,
};

verus! {

/// The five NEVRA fields read from `s`, or `None` where the grammar does not
/// match: the architecture is peeled at the last `.`, release and
/// epoch-version at the last two `-`, and the epoch at the first `:` of the
/// middle field, defaulting to `0`.
pub open spec fn nevra_parts(s: Seq<char>) -> Option<
    (Seq<char>, Seq<char>, Seq<char>, Seq<char>, Seq<char>),
> {
    let dot = last_index_of(s, '.');
    if dot < 0 {
        None
    } else {
        let arch = s.subrange(dot + 1, s.len() as int);
        let nevr = s.subrange(0, dot);
        let rdash = last_index_of(nevr, '-');
        if rdash < 0 {
            None
        } else {
            let rel = nevr.subrange(rdash + 1, nevr.len() as int);
            let nev = nevr.subrange(0, rdash);
            let edash = last_index_of(nev, '-');
            if edash < 0 {
                None
            } else {
                let ev = nev.subrange(edash + 1, nev.len() as int);
                let name = nev.subrange(0, edash);
                let colon = first_index_of(ev, ':');
                if colon < 0 {
                    Some((name, seq!['0'], ev, rel, arch))
                } else {
                    Some(
                        (
                            name,
                            ev.subrange(0, colon),
                            ev.subrange(colon + 1, ev.len() as int),
                            rel,
                            arch,
                        ),
                    )
                }
            }
        }
    }
}

/// Concatenate an error prefix with the offending input.
fn error_msg(prefix: &str, detail: &str) -> (r: String)
    ensures
        r@ == prefix@ + detail@,
{
    let s = String::from_str(prefix);
    s.concat(detail)
}

/// Split a packaged artifact name of the shape `N-[E:]V-R.A` into its five
/// fields; the error identifies the offending input.
pub fn parse_nevra<'a>(nevra: &'a str) -> (r: Result<
    (&'a str, &'a str, &'a str, &'a str, &'a str),
    String,
>)
    ensures
        match r {
            Ok(t) => nevra_parts(nevra@) == Some((t.0@, t.1@, t.2@, t.3@, t.4@)),
            Err(_) => nevra_parts(nevra@) is None,
        },
{
    let total: usize = nevra.unicode_len();
    let dot = match rfind_char(nevra, '.') {
        Some(d) => d,
        None => {
            return Err(error_msg("Unexpected error when parsing NEVRAs: ", nevra));
        },
    };
    proof {
        lemma_last_index_bounds(nevra@, '.');
    }
    let arch = nevra.substring_char(dot + 1, total);
    let nevr = nevra.substring_char(0, dot);

    let nevr_len: usize = nevr.unicode_len();
    let rdash = match rfind_char(nevr, '-') {
        Some(d) => d,
        None => {
            return Err(error_msg("Unexpected error when parsing NEVRAs: ", nevr));
        },
    };
    proof {
        lemma_last_index_bounds(nevr@, '-');
    }
    let rel = nevr.substring_char(rdash + 1, nevr_len);
    let nev = nevr.substring_char(0, rdash);

    let nev_len: usize = nev.unicode_len();
    let edash = match rfind_char(nev, '-') {
        Some(d) => d,
        None => {
            return Err(error_msg("Unexpected error when parsing NEVRAs: ", nevr));
        },
    };
    proof {
        lemma_last_index_bounds(nev@, '-');
    }
    let ev = nev.substring_char(edash + 1, nev_len);
    let name = nev.substring_char(0, edash);

    let ev_len: usize = ev.unicode_len();
    match find_char(ev, ':') {
        Some(colon) => {
            proof {
                lemma_first_index_bounds(ev@, ':');
            }
            let epoch = ev.substring_char(0, colon);
            let version = ev.substring_char(colon + 1, ev_len);
            Ok((name, epoch, version, rel, arch))
        },
        None => {
            let epoch = "0";
            proof {
                reveal_strlit("0");
                assert(epoch@ =~= seq!['0']);
            }
            Ok((name, epoch, ev, rel, arch))
        },
    }
}

/// One content-listing line: exactly six space-separated fields, the third
/// a decimal integer.
pub open spec fn repoquery_line_ok(line: Seq<char>) -> bool {
    let fields = split_char(line, ' ');
    fields.len() == 6 && is_i32_str(fields[2])
}

/// The package a well-formed content-listing line describes.
pub open spec fn package_of_line(line: Seq<char>) -> PackageV {
    let fields = split_char(line, ' ');
    PackageV {
        name: fields[0],
        source_name: fields[1],
        epoch: i32_str_val(fields[2]),
        version: fields[3],
        release: fields[4],
        arch: fields[5],
    }
}

/// Every line of the listing is well-formed.
pub open spec fn repoquery_ok(s: Seq<char>) -> bool {
    forall|i: int|
        0 <= i < split_char(s, '\n').len() ==> repoquery_line_ok(#[trigger] split_char(s, '\n')[i])
}

/// The packages a well-formed listing describes, one per line.
pub open spec fn repoquery_packages(s: Seq<char>) -> Seq<PackageV> {
    split_char(s, '\n').map_values(|l: Seq<char>| package_of_line(l))
}

/// Convert the content listing into one record per line; the first
/// malformed line is an error identifying the line or its epoch field.
pub fn parse_repoquery(string: &str) -> (r: Result<Vec<Package>, String>)
    ensures
        match r {
            Ok(v) => repoquery_ok(string@) && v@.map_values(|p: Package| p@) == repoquery_packages(
                string@,
            ),
            Err(_) => !repoquery_ok(string@),
        },
{
    let lines = split_str(string, '\n');
    let ghost line_views = split_char(string@, '\n');
    let mut packages: Vec<Package> = Vec::new();
    let mut i: usize = 0;
    while i < lines.len()
        invariant
            lines@.map_values(|t: &str| t@) == line_views,
            line_views == split_char(string@, '\n'),
            0 <= i <= lines@.len(),
            packages@.len() == i,
            forall|j: int| 0 <= j < i ==> repoquery_line_ok(#[trigger] line_views[j]),
            forall|j: int|
                0 <= j < i ==> (#[trigger] packages@[j])@ == package_of_line(line_views[j]),
        decreases lines@.len() - i,
    {
        let line = lines[i];
        let fields = split_str(line, ' ');
        proof {
            assert(line@ == line_views[i as int]);
        }
        if fields.len() != 6 {
            proof {
                assert(!repoquery_line_ok(line_views[i as int]));
            }
            return Err(error_msg("Failed to parse line: ", line));
        }
        let epoch = match parse_i32(fields[2]) {
            Some(value) => value,
            None => {
                proof {
                    assert(fields@.map_values(|t: &str| t@)[2] == fields@[2]@);
                    assert(!repoquery_line_ok(line_views[i as int]));
                }
                return Err(error_msg("Failed to parse Epoch value: ", fields[2]));
            },
        };
        proof {
            assert(fields@.map_values(|t: &str| t@)[0] == fields@[0]@);
            assert(fields@.map_values(|t: &str| t@)[1] == fields@[1]@);
            assert(fields@.map_values(|t: &str| t@)[2] == fields@[2]@);
            assert(fields@.map_values(|t: &str| t@)[3] == fields@[3]@);
            assert(fields@.map_values(|t: &str| t@)[4] == fields@[4]@);
            assert(fields@.map_values(|t: &str| t@)[5] == fields@[5]@);
        }
        let package = Package {
            name: String::from_str(fields[0]),
            source_name: String::from_str(fields[1]),
            epoch,
            version: String::from_str(fields[3]),
            release: String::from_str(fields[4]),
            arch: String::from_str(fields[5]),
        };
        proof {
            assert(package@ == package_of_line(line_views[i as int]));
        }
        packages.push(package);
        i = i + 1;
    }
    proof {
        assert(packages@.map_values(|p: Package| p@) =~= repoquery_packages(string@));
    }
    Ok(packages)
}

/// The prefix opening a record line of the closure output.
pub open spec fn header_prefix() -> Seq<char> {
    seq!['p', 'a', 'c', 'k', 'a', 'g', 'e', ':', ' ']
}

/// The noise line between a record line and its capabilities.
pub open spec fn noise_prefix() -> Seq<char> {
    seq![' ', ' ', 'u', 'n', 'r', 'e', 's', 'o', 'l', 'v', 'e', 'd', ' ', 'd', 'e', 'p', 's', ':']
}

/// The indentation opening a capability line.
pub open spec fn indent_prefix() -> Seq<char> {
    seq![' ', ' ', ' ', ' ']
}

/// The record a `package: <NEVRA> from <repo>` line opens, or `None` where
/// the line has fewer than four fields or its NEVRA does not parse.
pub open spec fn dep_of_header(line: Seq<char>) -> Option<BrokenDepV> {
    let fields = split_char(line, ' ');
    if fields.len() < 4 {
        None
    } else {
        match nevra_parts(fields[1]) {
            None => None,
            Some(t) => Some(
                BrokenDepV {
                    package: t.0,
                    epoch: t.1,
                    version: t.2,
                    release: t.3,
                    arch: t.4,
                    repo: fields[3],
                    broken: Seq::empty(),
                },
            ),
        }
    }
}

/// Append one trimmed capability line to the open record.
pub open spec fn push_cap(d: BrokenDepV, line: Seq<char>) -> BrokenDepV {
    BrokenDepV {
        package: d.package,
        epoch: d.epoch,
        version: d.version,
        release: d.release,
        arch: d.arch,
        repo: d.repo,
        broken: d.broken.push(trim_view(line)),
    }
}

/// Commit the open record, if any.
pub open spec fn commit_dep(deps: Seq<BrokenDepV>, cur: Option<BrokenDepV>) -> Seq<BrokenDepV> {
    match cur {
        None => deps,
        Some(d) => deps.push(d),
    }
}

/// One step of the line-oriented state machine of the closure output: a
/// header line commits the open record and opens a new one, the noise line
/// and unrecognised lines are skipped, a four-space line appends a
/// capability to the open record and is an error without one.
pub open spec fn closure_step(
    deps: Seq<BrokenDepV>,
    cur: Option<BrokenDepV>,
    line: Seq<char>,
) -> Option<(Seq<BrokenDepV>, Option<BrokenDepV>)> {
    if starts_with_view(line, header_prefix()) {
        match dep_of_header(line) {
            None => None,
            Some(d) => Some((commit_dep(deps, cur), Some(d))),
        }
    } else if starts_with_view(line, noise_prefix()) {
        Some((deps, cur))
    } else if starts_with_view(line, indent_prefix()) {
        match cur {
            None => None,
            Some(d) => Some((deps, Some(push_cap(d, line)))),
        }
    } else {
        Some((deps, cur))
    }
}

/// The state machine run over a sequence of lines.
pub open spec fn closure_fold(
    lines: Seq<Seq<char>>,
    deps: Seq<BrokenDepV>,
    cur: Option<BrokenDepV>,
) -> Option<(Seq<BrokenDepV>, Option<BrokenDepV>)>
    decreases lines.len(),
{
    if lines.len() == 0 {
        Some((deps, cur))
    } else {
        match closure_step(deps, cur, lines[0]) {
            None => None,
            Some(st) => closure_fold(lines.subrange(1, lines.len() as int), st.0, st.1),
        }
    }
}

/// The records the closure output describes, committing on end of input,
/// or `None` where a line is malformed.
pub open spec fn closure_records(s: Seq<char>) -> Option<Seq<BrokenDepV>> {
    match closure_fold(split_char(s, '\n'), Seq::empty(), None) {
        None => None,
        Some(st) => Some(commit_dep(st.0, st.1)),
    }
}

/// Run the line-oriented state machine over the closure output; errors
/// surface the malformed line or NEVRA.
pub fn parse_repoclosure(string: &str) -> (r: Result<Vec<BrokenDep>, String>)
    ensures
        match r {
            Ok(v) => closure_records(string@) == Some(v@.map_values(|d: BrokenDep| d@)),
            Err(_) => closure_records(string@) is None,
        },
{
    proof {
        reveal_strlit("package: ");
        assert("package: "@ =~= header_prefix());
        reveal_strlit("  unresolved deps:");
        assert("  unresolved deps:"@ =~= noise_prefix());
        reveal_strlit("    ");
        assert("    "@ =~= indent_prefix());
    }
    let lines = split_str(string, '\n');
    let ghost line_views = split_char(string@, '\n');
    let mut deps: Vec<BrokenDep> = Vec::new();
    let mut cur: Option<BrokenDep> = None;
    let mut i: usize = 0;
    proof {
        assert(line_views.subrange(0, line_views.len() as int) =~= line_views);
        assert(deps@.map_values(|d: BrokenDep| d@) =~= Seq::<BrokenDepV>::empty());
    }
    while i < lines.len()
        invariant
            lines@.map_values(|t: &str| t@) == line_views,
            line_views == split_char(string@, '\n'),
            0 <= i <= lines@.len(),
            closure_fold(line_views, Seq::empty(), None) == closure_fold(
                line_views.subrange(i as int, line_views.len() as int),
                deps@.map_values(|d: BrokenDep| d@),
                match cur {
                    None => None,
                    Some(d) => Some(d@),
                },
            ),
        decreases lines@.len() - i,
    {
        let line = lines[i];
        let ghost rest = line_views.subrange(i as int, line_views.len() as int);
        let ghost deps0 = deps@.map_values(|d: BrokenDep| d@);
        let ghost cur0: Option<BrokenDepV> = match &cur {
            None => None,
            Some(d) => Some(d@),
        };
        proof {
            reveal_strlit("package: ");
            assert("package: "@ =~= header_prefix());
            reveal_strlit("  unresolved deps:");
            assert("  unresolved deps:"@ =~= noise_prefix());
            reveal_strlit("    ");
            assert("    "@ =~= indent_prefix());
            assert(line@ == line_views[i as int]);
            assert(rest[0] == line@);
            assert(rest.subrange(1, rest.len() as int) =~= line_views.subrange(
                i + 1,
                line_views.len() as int,
            ));
        }
        if str_starts_with(line, "package: ") {
            let prev = cur;
            cur = None;
            if let Some(d) = prev {
                deps.push(d);
            }
            let fields = split_str(line, ' ');
            if fields.len() < 4 {
                proof {
                    assert(split_char(line@, ' ').len() == fields@.map_values(
                        |t: &str| t@,
                    ).len());
                    assert(closure_step(deps0, cur0, line@) is None);
                }
                return Err(error_msg("Failed to parse line from repoclosure output: ", line));
            }
            let parsed = match parse_nevra(fields[1]) {
                Ok(t) => t,
                Err(e) => {
                    proof {
                        assert(split_char(line@, ' ').len() == fields@.map_values(
                            |t: &str| t@,
                        ).len());
                        assert(fields@.map_values(|t: &str| t@)[1] == fields@[1]@);
                        assert(closure_step(deps0, cur0, line@) is None);
                    }
                    return Err(e);
                },
            };
            proof {
                assert(fields@.map_values(|t: &str| t@)[1] == fields@[1]@);
                assert(fields@.map_values(|t: &str| t@)[3] == fields@[3]@);
            }
            let dep = BrokenDep {
                package: String::from_str(parsed.0),
                epoch: String::from_str(parsed.1),
                version: String::from_str(parsed.2),
                release: String::from_str(parsed.3),
                arch: String::from_str(parsed.4),
                repo: String::from_str(fields[3]),
                broken: Vec::new(),
            };
            proof {
                assert(dep@.broken =~= Seq::<Seq<char>>::empty());
                assert(dep_of_header(line@) == Some(dep@));
                assert(deps@.map_values(|d: BrokenDep| d@) =~= commit_dep(deps0, cur0));
                assert(closure_step(deps0, cur0, line@) == Some(
                    (commit_dep(deps0, cur0), Some(dep@)),
                ));
            }
            cur = Some(dep);
        } else if str_starts_with(line, "  unresolved deps:") {
            proof {
                assert(closure_step(deps0, cur0, line@) == Some((deps0, cur0)));
            }
        } else if str_starts_with(line, "    ") {
            match cur {
                Some(mut d) => {
                    let ghost d_old = d@;
                    let cap = String::from_str(trim_str(line));
                    d.broken.push(cap);
                    proof {
                        assert(d.broken@.map_values(|s: String| s@) =~= d_old.broken.push(cap@));
                        assert(cap@ == trim_view(line@));
                        assert(d@ == push_cap(d_old, line@));
                        assert(cur0 == Some(d_old));
                        assert(closure_step(deps0, cur0, line@) == Some((deps0, Some(d@))));
                    }
                    cur = Some(d);
                },
                None => {
                    proof {
                        assert(closure_step(deps0, cur0, line@) is None);
                    }
                    return Err(String::from_str("Unrecognised output from repoclosure."));
                },
            }
        } else {
            proof {
                assert(closure_step(deps0, cur0, line@) == Some((deps0, cur0)));
            }
        }
        i = i + 1;
    }
    proof {
        assert(line_views.subrange(line_views.len() as int, line_views.len() as int)
            =~= Seq::<Seq<char>>::empty());
    }
    if let Some(d) = cur {
        let ghost deps0 = deps@.map_values(|dd: BrokenDep| dd@);
        deps.push(d);
        proof {
            assert(deps@.map_values(|dd: BrokenDep| dd@) =~= deps0.push(d@));
        }
    }
    Ok(deps)
}

/// A line opening a record.
pub open spec fn header_shaped(line: Seq<char>) -> bool {
    starts_with_view(line, header_prefix())
}

/// A line contributing a capability: four leading spaces, and neither a
/// record line nor the noise line.
pub open spec fn cap_shaped(line: Seq<char>) -> bool {
    !header_shaped(line) && !starts_with_view(line, noise_prefix()) && starts_with_view(
        line,
        indent_prefix(),
    )
}

/// The trimmed capability lines among `lines`, in order.
pub open spec fn caps_of(lines: Seq<Seq<char>>) -> Seq<Seq<char>>
    decreases lines.len(),
{
    if lines.len() == 0 {
        Seq::empty()
    } else if cap_shaped(lines[0]) {
        seq![trim_view(lines[0])] + caps_of(lines.subrange(1, lines.len() as int))
    } else {
        caps_of(lines.subrange(1, lines.len() as int))
    }
}

/// `d` with the capabilities of `lines` appended.
pub open spec fn extend_caps(d: BrokenDepV, lines: Seq<Seq<char>>) -> BrokenDepV {
    BrokenDepV {
        package: d.package,
        epoch: d.epoch,
        version: d.version,
        release: d.release,
        arch: d.arch,
        repo: d.repo,
        broken: d.broken + caps_of(lines),
    }
}

/// Folding over a concatenation folds the two parts in turn.
pub proof fn lemma_closure_fold_append(
    xs: Seq<Seq<char>>,
    ys: Seq<Seq<char>>,
    deps: Seq<BrokenDepV>,
    cur: Option<BrokenDepV>,
)
    ensures
        closure_fold(xs + ys, deps, cur) == (match closure_fold(xs, deps, cur) {
            None => None,
            Some(st) => closure_fold(ys, st.0, st.1),
        }),
    decreases xs.len(),
{
    if xs.len() == 0 {
        assert(xs + ys =~= ys);
    } else {
        assert((xs + ys)[0] == xs[0]);
        match closure_step(deps, cur, xs[0]) {
            None => {
            },
            Some(st) => {
                assert((xs + ys).subrange(1, (xs + ys).len() as int) =~= xs.subrange(
                    1,
                    xs.len() as int,
                ) + ys);
                lemma_closure_fold_append(xs.subrange(1, xs.len() as int), ys, st.0, st.1);
            },
        }
    }
}

/// Folding lines that open no record only appends their capabilities to the
/// open record.
pub proof fn lemma_closure_fold_interior(
    lines: Seq<Seq<char>>,
    deps: Seq<BrokenDepV>,
    d: BrokenDepV,
)
    requires
        forall|j: int| 0 <= j < lines.len() ==> !header_shaped(#[trigger] lines[j]),
    ensures
        closure_fold(lines, deps, Some(d)) == Some((deps, Some(extend_caps(d, lines)))),
    decreases lines.len(),
{
    if lines.len() == 0 {
        assert(d.broken + caps_of(lines) =~= d.broken);
        assert(extend_caps(d, lines) == d);
    } else {
        let tail = lines.subrange(1, lines.len() as int);
        if cap_shaped(lines[0]) {
            lemma_closure_fold_interior(tail, deps, push_cap(d, lines[0]));
            assert(push_cap(d, lines[0]).broken + caps_of(tail) =~= d.broken + caps_of(lines));
            assert(extend_caps(push_cap(d, lines[0]), tail) == extend_caps(d, lines));
        } else {
            lemma_closure_fold_interior(tail, deps, d);
            assert(d.broken + caps_of(tail) =~= d.broken + caps_of(lines));
            assert(extend_caps(d, tail) == extend_caps(d, lines));
        }
    }
}

/// A well-formed block: a record line whose NEVRA parses, then lines that
/// open no further record.
pub open spec fn block_wf(b: Seq<Seq<char>>) -> bool {
    b.len() > 0 && header_shaped(b[0]) && dep_of_header(b[0]) is Some && (forall|j: int|
        1 <= j < b.len() ==> !header_shaped(#[trigger] b[j]))
}

/// The record a well-formed block describes: the header's fields, with the
/// block's trimmed capability lines.
pub open spec fn block_record(b: Seq<Seq<char>>) -> BrokenDepV {
    extend_caps(dep_of_header(b[0]).unwrap(), b.subrange(1, b.len() as int))
}

pub open spec fn blocks_records(bs: Seq<Seq<Seq<char>>>) -> Seq<BrokenDepV> {
    bs.map_values(|b: Seq<Seq<char>>| block_record(b))
}

/// The lines of all blocks, in order.
pub open spec fn concat_lines(bs: Seq<Seq<Seq<char>>>) -> Seq<Seq<char>>
    decreases bs.len(),
{
    if bs.len() == 0 {
        Seq::empty()
    } else {
        bs[0] + concat_lines(bs.subrange(1, bs.len() as int))
    }
}

proof fn lemma_closure_blocks_from(
    bs: Seq<Seq<Seq<char>>>,
    deps: Seq<BrokenDepV>,
    cur: Option<BrokenDepV>,
)
    requires
        forall|i: int| 0 <= i < bs.len() ==> block_wf(#[trigger] bs[i]),
    ensures
        closure_fold(concat_lines(bs), deps, cur) is Some,
        ({
            let st = closure_fold(concat_lines(bs), deps, cur).unwrap();
            commit_dep(st.0, st.1) == commit_dep(deps, cur) + blocks_records(bs)
        }),
    decreases bs.len(),
{
    if bs.len() == 0 {
        assert(commit_dep(deps, cur) + blocks_records(bs) =~= commit_dep(deps, cur));
    } else {
        let b = bs[0];
        let rest = bs.subrange(1, bs.len() as int);
        assert(block_wf(b));
        let tail = b.subrange(1, b.len() as int);
        let d0 = dep_of_header(b[0]).unwrap();

        lemma_closure_fold_append(b, concat_lines(rest), deps, cur);
        assert(b + concat_lines(rest) == concat_lines(bs));

        assert(b =~= seq![b[0]] + tail);
        lemma_closure_fold_append(seq![b[0]], tail, deps, cur);
        let e: Seq<Seq<char>> = Seq::empty();
        assert(seq![b[0]].subrange(1, 1) =~= e);
        assert(closure_step(deps, cur, b[0]) == Some((commit_dep(deps, cur), Some(d0))));
        assert(closure_fold(e, commit_dep(deps, cur), Some(d0)) == Some(
            (commit_dep(deps, cur), Some(d0)),
        ));
        assert(closure_fold(seq![b[0]], deps, cur) == Some((commit_dep(deps, cur), Some(d0))));
        assert(forall|j: int| 0 <= j < tail.len() ==> !header_shaped(#[trigger] tail[j]));
        lemma_closure_fold_interior(tail, commit_dep(deps, cur), d0);
        assert(closure_fold(b, deps, cur) == Some(
            (commit_dep(deps, cur), Some(block_record(b))),
        ));

        lemma_closure_blocks_from(rest, commit_dep(deps, cur), Some(block_record(b)));
        let st = closure_fold(concat_lines(bs), deps, cur).unwrap();
        assert(commit_dep(st.0, st.1) == commit_dep(deps, cur).push(block_record(b))
            + blocks_records(rest));
        assert(blocks_records(bs) =~= seq![block_record(b)] + blocks_records(rest));
        assert(commit_dep(deps, cur).push(block_record(b)) + blocks_records(rest)
            =~= commit_dep(deps, cur) + blocks_records(bs));
    }
}

/// Closure-parser block law: a buffer holding the lines of `k` well-formed
/// record blocks parses without error into exactly `k` records, the `i`-th
/// being its block's header fields together with the block's trimmed
/// four-space capability lines, in order.
pub proof fn lemma_closure_blocks(bs: Seq<Seq<Seq<char>>>)
    requires
        forall|i: int| 0 <= i < bs.len() ==> block_wf(#[trigger] bs[i]),
    ensures
        closure_fold(concat_lines(bs), Seq::empty(), None) is Some,
        ({
            let st = closure_fold(concat_lines(bs), Seq::empty(), None).unwrap();
            &&& commit_dep(st.0, st.1).len() == bs.len()
            &&& forall|i: int|
                0 <= i < bs.len() ==> commit_dep(st.0, st.1)[i] == block_record(#[trigger] bs[i])
        }),
{
    lemma_closure_blocks_from(bs, Seq::empty(), None);
    let st = closure_fold(concat_lines(bs), Seq::empty(), None).unwrap();
    assert(commit_dep(Seq::empty(), None) + blocks_records(bs) =~= blocks_records(bs));
    assert(commit_dep(st.0, st.1) == blocks_records(bs));
}

/// The canonical written form of five NEVRA fields: `N-E:V-R.A`, with the
/// epoch and its colon left out when the epoch is empty.
pub open spec fn nevra_format(
    n: Seq<char>,
    e: Seq<char>,
    v: Seq<char>,
    r: Seq<char>,
    a: Seq<char>,
) -> Seq<char> {
    let ev = if e.len() == 0 {
        v
    } else {
        e + seq![':'] + v
    };
    n + seq!['-'] + ev + seq!['-'] + r + seq!['.'] + a
}

/// Write five NEVRA fields in their canonical form.
pub fn format_nevra(n: &str, e: &str, v: &str, r: &str, a: &str) -> (s: String)
    ensures
        s@ == nevra_format(n@, e@, v@, r@, a@),
{
    proof {
        reveal_strlit("-");
        reveal_strlit(":");
        reveal_strlit(".");
        assert("-"@ =~= seq!['-']);
        assert(":"@ =~= seq![':']);
        assert("."@ =~= seq!['.']);
    }
    let mut s = String::from_str(n);
    s.append("-");
    if e.unicode_len() > 0 {
        s.append(e);
        s.append(":");
    }
    s.append(v);
    s.append("-");
    s.append(r);
    s.append(".");
    s.append(a);
    proof {
        assert(s@ =~= nevra_format(n@, e@, v@, r@, a@));
    }
    s
}

/// Name-parser round trip: formatting five fields and parsing the result
/// returns them unchanged, with an empty epoch read back as `0`. The name
/// must hold no `-`, the epoch and version no `-` or `:`, the release no
/// `-` or `:`, and the architecture no `.`.
pub proof fn lemma_nevra_round_trip(
    n: Seq<char>,
    e: Seq<char>,
    v: Seq<char>,
    r: Seq<char>,
    a: Seq<char>,
)
    requires
        !n.contains('-'),
        !e.contains('-'),
        !e.contains(':'),
        !v.contains('-'),
        !v.contains(':'),
        !r.contains('-'),
        !r.contains(':'),
        !a.contains('.'),
    ensures
        nevra_parts(nevra_format(n, e, v, r, a)) == Some(
            (
                n,
                if e.len() == 0 {
                    seq!['0']
                } else {
                    e
                },
                v,
                r,
                a,
            ),
        ),
{
    let ev = if e.len() == 0 {
        v
    } else {
        e + seq![':'] + v
    };
    let nev = n + seq!['-'] + ev;
    let nevr = nev + seq!['-'] + r;
    let s = nevra_format(n, e, v, r, a);
    assert(s =~= nevr + seq!['.'] + a);

    crate::text::lemma_last_index_concat(nevr, '.', a);
    assert(last_index_of(s, '.') == nevr.len());
    assert(s.subrange(0, nevr.len() as int) == nevr);
    assert(s.subrange(nevr.len() as int + 1, s.len() as int) =~= s.subrange(
        nevr.len() as int + 1,
        nevr.len() as int + 1 + a.len() as int,
    ));

    assert(!r.contains('-'));
    crate::text::lemma_last_index_concat(nev, '-', r);
    assert(last_index_of(nevr, '-') == nev.len());
    assert(nevr.subrange(nev.len() as int + 1, nevr.len() as int) =~= nevr.subrange(
        nev.len() as int + 1,
        nev.len() as int + 1 + r.len() as int,
    ));

    assert(!ev.contains('-')) by {
        if e.len() > 0 {
            assert(forall|i: int| 0 <= i < ev.len() ==> ev[i] != '-');
        }
    }
    crate::text::lemma_last_index_concat(n, '-', ev);
    assert(last_index_of(nev, '-') == n.len());
    assert(nev.subrange(n.len() as int + 1, nev.len() as int) =~= nev.subrange(
        n.len() as int + 1,
        n.len() + 1 + ev.len() as int,
    ));

    if e.len() == 0 {
        assert(ev == v);
        crate::text::lemma_first_index_none_from_contains(ev, ':');
    } else {
        crate::text::lemma_first_index_concat(e, ':', v);
        assert(first_index_of(ev, ':') == e.len());
        assert(ev.subrange(e.len() as int + 1, ev.len() as int) =~= ev.subrange(
            e.len() as int + 1,
            e.len() as int + 1 + v.len() as int,
        ));
    }
}

} // verus!
