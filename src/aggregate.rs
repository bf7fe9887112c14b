use vstd::prelude::*;

use crate::paths::{components_to, is_under, starts_with, PathView};
use crate::types::{comments_percentage_of, FileStats, Metrics, PathType, SCALE};

verus! {

/// A summed field of a record.
pub enum Field {
    HalsteadVolume,
    CyclomaticComplexity,
    LinesOfCode,
    CommentLines,
    ChangesCount,
}

/// What a record adds to a directory's sum for `f`. A record without
/// metrics adds nothing to the metric sums.
pub open spec fn field_value(r: FileStats, f: Field) -> int {
    match f {
        Field::ChangesCount => r.changes_count as int,
        _ => match r.metrics {
            None => 0,
            Some(m) => match f {
                Field::HalsteadVolume => m.halstead_volume as int,
                Field::CyclomaticComplexity => m.cyclomatic_complexity as int,
                Field::LinesOfCode => m.loc as int,
                Field::CommentLines => m.comment_lines as int,
                Field::ChangesCount => 0,
            },
        },
    }
}

/// `r` is a file somewhere below the directory `dir`.
pub open spec fn counts_toward(dir: PathView, r: FileStats) -> bool {
    r.path_type == PathType::File && is_under(dir, r.path.deep_view())
}

/// The sum of `f` over every file of `recs` below `dir`.
pub open spec fn subtree_sum(recs: Seq<FileStats>, dir: PathView, f: Field) -> int
    decreases recs.len(),
{
    if recs.len() == 0 {
        0
    } else {
        subtree_sum(recs.drop_last(), dir, f) + if counts_toward(dir, recs.last()) {
            field_value(recs.last(), f)
        } else {
            0
        }
    }
}

/// The least maintainability index among the files of `recs` below `dir`
/// that have metrics; `None` where there is none.
pub open spec fn subtree_min_mi(recs: Seq<FileStats>, dir: PathView) -> Option<int>
    decreases recs.len(),
{
    if recs.len() == 0 {
        None
    } else {
        let rest = subtree_min_mi(recs.drop_last(), dir);
        let r = recs.last();
        if counts_toward(dir, r) && r.metrics is Some {
            let v = r.metrics->Some_0.maintainability_index as int;
            match rest {
                None => Some(v),
                Some(w) => Some(if v < w { v } else { w }),
            }
        } else {
            rest
        }
    }
}

/// A sum held in a `u64` field: the sum itself where it fits.
pub open spec fn cap(x: int) -> u64 {
    if x > u64::MAX { u64::MAX } else { x as u64 }
}

/// The metrics of the directory `dir`: sums of the volumes, complexities,
/// lines and comment lines of its measured files, and the least of their
/// maintainability indices. Complexity is summed, not maximised: a
/// directory holds all of its files' decision points.
pub open spec fn rolled_up_metrics(recs: Seq<FileStats>, dir: PathView) -> Option<Metrics> {
    match subtree_min_mi(recs, dir) {
        None => None,
        Some(mi) => Some(
            Metrics {
                halstead_volume: cap(subtree_sum(recs, dir, Field::HalsteadVolume)),
                cyclomatic_complexity: cap(subtree_sum(recs, dir, Field::CyclomaticComplexity)),
                loc: cap(subtree_sum(recs, dir, Field::LinesOfCode)),
                comment_lines: cap(subtree_sum(recs, dir, Field::CommentLines)),
                maintainability_index: mi as u64,
            },
        ),
    }
}

/// The number of changes of the directory `dir`: one for each change of
/// each file below it.
pub open spec fn rolled_up_changes(recs: Seq<FileStats>, dir: PathView) -> u64 {
    cap(subtree_sum(recs, dir, Field::ChangesCount))
}

/// `d` is a directory below `root` with at least one file of `recs` below it.
pub open spec fn is_directory_of(recs: Seq<FileStats>, root: PathView, d: PathView) -> bool {
    is_under(root, d) && exists|i: int| 0 <= i < recs.len() && counts_toward(d, #[trigger] recs[i])
}

/// Every measured record's comment lines are within its lines.
pub open spec fn all_metrics_wf(recs: Seq<FileStats>) -> bool {
    forall|i: int| 0 <= i < recs.len() && (#[trigger] recs[i]).metrics is Some
        ==> recs[i].metrics->Some_0.wf()
}

/// The directory record that `recs` gives for `dir`.
pub open spec fn is_rollup_of(recs: Seq<FileStats>, dir: PathView, d: FileStats) -> bool {
    &&& d.path_type == PathType::Directory
    &&& d.path.deep_view() == dir
    &&& d.metrics == rolled_up_metrics(recs, dir)
    &&& d.changes_count == rolled_up_changes(recs, dir)
}

proof fn lemma_comment_lines_within_lines(recs: Seq<FileStats>, dir: PathView)
    requires
        all_metrics_wf(recs),
    ensures
        subtree_sum(recs, dir, Field::CommentLines) <= subtree_sum(recs, dir, Field::LinesOfCode),
        subtree_sum(recs, dir, Field::CommentLines) >= 0,
    decreases recs.len(),
{
    if recs.len() > 0 {
        assert(all_metrics_wf(recs.drop_last())) by {
            assert forall|i: int| 0 <= i < recs.drop_last().len() && (#[trigger] recs.drop_last()[i]).metrics is Some
                implies recs.drop_last()[i].metrics->Some_0.wf() by {
                assert(recs.drop_last()[i] == recs[i]);
            }
        }
        lemma_comment_lines_within_lines(recs.drop_last(), dir);
        assert(recs.last() == recs[recs.len() - 1]);
    }
}

proof fn lemma_sum_fits(i: int, acc: int, v: int)
    requires
        0 <= i < 0x1_0000_0000_0000_0000,
        0 <= acc <= i * 0xffff_ffff_ffff_ffff,
        0 <= v <= 0xffff_ffff_ffff_ffff,
    ensures
        acc + v <= (i + 1) * 0xffff_ffff_ffff_ffff,
        (i + 1) * 0xffff_ffff_ffff_ffff <= u128::MAX,
{
    assert((i + 1) * 0xffff_ffff_ffff_ffff <= 0x1_0000_0000_0000_0000 * 0xffff_ffff_ffff_ffff)
        by (nonlinear_arith)
        requires i + 1 <= 0x1_0000_0000_0000_0000;
    assert(acc + v <= (i + 1) * 0xffff_ffff_ffff_ffff) by (nonlinear_arith)
        requires acc <= i * 0xffff_ffff_ffff_ffff, v <= 0xffff_ffff_ffff_ffff;
}

fn capped(x: u128) -> (r: u64)
    ensures
        r == cap(x as int),
{
    if x > u64::MAX as u128 { u64::MAX } else { x as u64 }
}

/// Folds every file of `files` below `dir` into one directory record.
pub fn rollup_directory(files: &Vec<FileStats>, dir: Vec<String>) -> (d: FileStats)
    requires
        all_metrics_wf(files@),
    ensures
        is_rollup_of(files@, dir.deep_view(), d),
        d.metrics matches Some(m) ==> m.wf(),
{
    let ghost dv = dir.deep_view();
    let ghost recs = files@;
    let mut hv: u128 = 0;
    let mut cc: u128 = 0;
    let mut loc: u128 = 0;
    let mut cl: u128 = 0;
    let mut ch: u128 = 0;
    let mut mi: Option<u64> = None;
    let mut i: usize = 0;
    assert(recs.take(0) =~= Seq::<FileStats>::empty());
    while i < files.len()
        invariant
            i <= files.len(),
            recs == files@,
            dv == dir.deep_view(),
            hv == subtree_sum(recs.take(i as int), dv, Field::HalsteadVolume),
            cc == subtree_sum(recs.take(i as int), dv, Field::CyclomaticComplexity),
            loc == subtree_sum(recs.take(i as int), dv, Field::LinesOfCode),
            cl == subtree_sum(recs.take(i as int), dv, Field::CommentLines),
            ch == subtree_sum(recs.take(i as int), dv, Field::ChangesCount),
            hv <= i * 0xffff_ffff_ffff_ffff,
            cc <= i * 0xffff_ffff_ffff_ffff,
            loc <= i * 0xffff_ffff_ffff_ffff,
            cl <= i * 0xffff_ffff_ffff_ffff,
            ch <= i * 0xffff_ffff_ffff_ffff,
            match mi {
                None => subtree_min_mi(recs.take(i as int), dv) is None,
                Some(v) => subtree_min_mi(recs.take(i as int), dv) == Some(v as int),
            },
        decreases files.len() - i,
    {
        let r = &files[i];
        let ghost prev = recs.take(i as int);
        assert(recs.take(i + 1).drop_last() =~= prev);
        assert(recs.take(i + 1).last() == recs[i as int]);
        let under = r.path_type == PathType::File && r.path.len() > dir.len() && starts_with(&r.path, &dir);
        proof {
            assert(under == counts_toward(dv, *r)) by {
                if r.path_type == PathType::File && r.path.len() > dir.len() {
                    assert(r.path.deep_view().len() == r.path.len());
                }
            }
        }
        if under {
            let (h, c, l, k) = match &r.metrics {
                Some(m) => (m.halstead_volume, m.cyclomatic_complexity, m.loc, m.comment_lines),
                None => (0u64, 0u64, 0u64, 0u64),
            };
            proof {
                lemma_sum_fits(i as int, hv as int, h as int);
                lemma_sum_fits(i as int, cc as int, c as int);
                lemma_sum_fits(i as int, loc as int, l as int);
                lemma_sum_fits(i as int, cl as int, k as int);
                lemma_sum_fits(i as int, ch as int, r.changes_count as int);
            }
            hv = hv + h as u128;
            cc = cc + c as u128;
            loc = loc + l as u128;
            cl = cl + k as u128;
            ch = ch + r.changes_count as u128;
            if let Some(m) = &r.metrics {
                mi = match mi {
                    None => Some(m.maintainability_index),
                    Some(w) => Some(if m.maintainability_index < w { m.maintainability_index } else { w }),
                };
            }
        } else {
            proof {
                lemma_sum_fits(i as int, hv as int, 0);
                lemma_sum_fits(i as int, cc as int, 0);
                lemma_sum_fits(i as int, loc as int, 0);
                lemma_sum_fits(i as int, cl as int, 0);
                lemma_sum_fits(i as int, ch as int, 0);
            }
        }
        i = i + 1;
    }
    assert(recs.take(i as int) =~= recs);
    let metrics = match mi {
        None => None,
        Some(v) => {
            proof {
                lemma_comment_lines_within_lines(recs, dv);
            }
            Some(
                Metrics {
                    halstead_volume: capped(hv),
                    cyclomatic_complexity: capped(cc),
                    loc: capped(loc),
                    comment_lines: capped(cl),
                    maintainability_index: v,
                },
            )
        },
    };
    FileStats { path: dir, path_type: PathType::Directory, metrics, changes_count: capped(ch) }
}


/// Whether some record of `dirs` has the path `p`.
fn contains_path(dirs: &Vec<FileStats>, p: &Vec<String>) -> (r: bool)
    ensures
        r == exists|k: int| 0 <= k < dirs.len() && (#[trigger] dirs@[k]).path.deep_view() == p.deep_view(),
{
    let mut k: usize = 0;
    while k < dirs.len()
        invariant
            k <= dirs.len(),
            forall|k2: int| 0 <= k2 < k ==> (#[trigger] dirs@[k2]).path.deep_view() != p.deep_view(),
        decreases dirs.len() - k,
    {
        let same = dirs[k].path.len() == p.len() && starts_with(&dirs[k].path, p);
        if same {
            assert(dirs@[k as int].path.deep_view() =~= p.deep_view());
            return true;
        }
        proof {
            let dv = dirs@[k as int].path.deep_view();
            assert(dv.len() == dirs@[k as int].path@.len());
            if dv == p.deep_view() {
                assert(dv.take(p.len() as int) =~= p.deep_view());
            }
        }
        k = k + 1;
    }
    false
}

/// `dirs` holds one record for each directory below `root` that has a file
/// of `files` below it, and nothing else; each is the rollup of those files.
pub open spec fn is_rollup_set(files: Seq<FileStats>, root: PathView, dirs: Seq<FileStats>) -> bool {
    &&& forall|k: int| 0 <= k < dirs.len() ==> {
        &&& is_rollup_of(files, (#[trigger] dirs[k]).path.deep_view(), dirs[k])
        &&& is_directory_of(files, root, dirs[k].path.deep_view())
        &&& (dirs[k].metrics matches Some(m) ==> m.wf())
    }
    &&& forall|d: PathView| #[trigger] is_directory_of(files, root, d)
        ==> exists|k: int| 0 <= k < dirs.len() && (#[trigger] dirs[k]).path.deep_view() == d
    &&& forall|k1: int, k2: int| 0 <= k1 < k2 < dirs.len()
        ==> (#[trigger] dirs[k1]).path.deep_view() != (#[trigger] dirs[k2]).path.deep_view()
}

spec fn covered(dirs: Seq<FileStats>, d: PathView) -> bool {
    exists|k: int| 0 <= k < dirs.len() && (#[trigger] dirs[k]).path.deep_view() == d
}

/// The directory records above the files of `files`: every directory
/// between `root` (excluded) and a file, each folded over all the files
/// below it, once.
pub fn rollup(files: &Vec<FileStats>, root: &Vec<String>) -> (dirs: Vec<FileStats>)
    requires
        all_metrics_wf(files@),
    ensures
        is_rollup_set(files@, root.deep_view(), dirs@),
{
    let ghost rv = root.deep_view();
    let mut dirs: Vec<FileStats> = Vec::new();
    let mut i: usize = 0;
    while i < files.len()
        invariant
            i <= files.len(),
            rv == root.deep_view(),
            all_metrics_wf(files@),
            forall|k: int| 0 <= k < dirs.len() ==> {
                &&& is_rollup_of(files@, (#[trigger] dirs@[k]).path.deep_view(), dirs@[k])
                &&& is_directory_of(files@, rv, dirs@[k].path.deep_view())
                &&& (dirs@[k].metrics matches Some(m) ==> m.wf())
            },
            forall|k1: int, k2: int| 0 <= k1 < k2 < dirs.len()
                ==> (#[trigger] dirs@[k1]).path.deep_view() != (#[trigger] dirs@[k2]).path.deep_view(),
            forall|i2: int, j: int|
                0 <= i2 < i && 0 <= j && files@[i2].path_type == PathType::File
                    && is_under(rv, files@[i2].path.deep_view().take(j))
                    && j < files@[i2].path.deep_view().len()
                ==> covered(dirs@, #[trigger] files@[i2].path.deep_view().take(j)),
        decreases files.len() - i,
    {
        let f = &files[i];
        if f.path_type == PathType::File && root.len() < f.path.len() && starts_with(&f.path, root) {
            let mut j: usize = root.len() + 1;
            while j < f.path.len()
                invariant
                    i < files.len(),
                    f == files@[i as int],
                    f.path_type == PathType::File,
                    rv == root.deep_view(),
                    root.len() < j,
                    crate::paths::is_prefix(rv, f.path.deep_view()),
                    all_metrics_wf(files@),
                    forall|k: int| 0 <= k < dirs.len() ==> {
                        &&& is_rollup_of(files@, (#[trigger] dirs@[k]).path.deep_view(), dirs@[k])
                        &&& is_directory_of(files@, rv, dirs@[k].path.deep_view())
                        &&& (dirs@[k].metrics matches Some(m) ==> m.wf())
                    },
                    forall|k1: int, k2: int| 0 <= k1 < k2 < dirs.len()
                        ==> (#[trigger] dirs@[k1]).path.deep_view() != (#[trigger] dirs@[k2]).path.deep_view(),
                    forall|i2: int, j2: int|
                        0 <= i2 < i && 0 <= j2 && files@[i2].path_type == PathType::File
                            && is_under(rv, files@[i2].path.deep_view().take(j2))
                            && j2 < files@[i2].path.deep_view().len()
                        ==> covered(dirs@, #[trigger] files@[i2].path.deep_view().take(j2)),
                    forall|j2: int| root.len() < j2 < j
                        ==> covered(dirs@, #[trigger] f.path.deep_view().take(j2)),
                decreases f.path.len() - j,
            {
                let candidate = components_to(&f.path, j);
                let ghost cv = candidate.deep_view();
                proof {
                    assert(cv.take(rv.len() as int) =~= f.path.deep_view().take(rv.len() as int));
                    assert(counts_toward(cv, files@[i as int])) by {
                        assert(f.path.deep_view().take(j as int) =~= cv);
                    }
                    assert(is_directory_of(files@, rv, cv));
                }
                if !contains_path(&dirs, &candidate) {
                    let d = rollup_directory(files, candidate);
                    let ghost before = dirs@;
                    dirs.push(d);
                    proof {
                        assert(dirs@[dirs.len() - 1] == d);
                        assert forall|k: int| 0 <= k < before.len() implies dirs@[k] == before[k] by {}
                        assert forall|dd: PathView| covered(before, dd) implies covered(dirs@, dd) by {
                            let k = choose|k: int| 0 <= k < before.len() && (#[trigger] before[k]).path.deep_view() == dd;
                            assert(dirs@[k] == before[k]);
                        }
                        assert(covered(dirs@, cv)) by {
                            assert(dirs@[dirs.len() - 1].path.deep_view() == cv);
                        }
                    }
                }
                j = j + 1;
            }
        }
        proof {
            assert forall|i2: int, j2: int|
                0 <= i2 < i + 1 && 0 <= j2 && files@[i2].path_type == PathType::File
                    && is_under(rv, files@[i2].path.deep_view().take(j2))
                    && j2 < files@[i2].path.deep_view().len()
                implies covered(dirs@, #[trigger] files@[i2].path.deep_view().take(j2)) by {
                if i2 == i {
                    let pv = files@[i2].path.deep_view();
                    assert(pv.take(j2).take(rv.len() as int) =~= pv.take(rv.len() as int));
                    assert(crate::paths::is_prefix(rv, pv));
                    assert(root.len() < j2);
                }
            }
        }
        i = i + 1;
    }
    proof {
        assert forall|d: PathView| #[trigger] is_directory_of(files@, rv, d)
            implies exists|k: int| 0 <= k < dirs.len() && (#[trigger] dirs@[k]).path.deep_view() == d by {
            let i2 = choose|i2: int| 0 <= i2 < files.len() && counts_toward(d, #[trigger] files@[i2]);
            let pv = files@[i2].path.deep_view();
            assert(pv.take(d.len() as int) == d);
            assert(covered(dirs@, pv.take(d.len() as int)));
        }
    }
    dirs
}

/// The sum, over the measured files of `recs` below `dir`, of each file's
/// comment percentage weighted by its lines of code.
pub open spec fn subtree_weighted_comments(recs: Seq<FileStats>, dir: PathView) -> int
    decreases recs.len(),
{
    if recs.len() == 0 {
        0
    } else {
        let r = recs.last();
        subtree_weighted_comments(recs.drop_last(), dir) + if counts_toward(dir, r) && r.metrics is Some {
            r.metrics->Some_0.spec_comments_percentage() * r.metrics->Some_0.loc
        } else {
            0
        }
    }
}

proof fn lemma_percentage_floor(cl: int, loc: int)
    requires
        0 <= cl <= loc,
        loc > 0,
    ensures
        comments_percentage_of(cl, loc) * loc <= cl * 100 * SCALE,
        cl * 100 * SCALE < comments_percentage_of(cl, loc) * loc + loc,
        comments_percentage_of(cl, loc) >= 0,
{
    let x = cl * 100 * SCALE;
    let q = x / loc;
    assert(x == cl * 100000);
    assert(x >= 0) by (nonlinear_arith) requires cl >= 0, x == cl * 100000;
    vstd::arithmetic::div_mod::lemma_fundamental_div_mod(x, loc);
    assert(q * loc <= x && x < q * loc + loc) by (nonlinear_arith)
        requires x == loc * q + x % loc, 0 <= x % loc < loc;
    assert(q >= 0) by (nonlinear_arith) requires x >= 0, loc > 0, q == x / loc;
}

proof fn lemma_weighted_comments_bounds(recs: Seq<FileStats>, dir: PathView)
    requires
        all_metrics_wf(recs),
    ensures
        subtree_weighted_comments(recs, dir) <= subtree_sum(recs, dir, Field::CommentLines) * 100 * SCALE,
        subtree_sum(recs, dir, Field::CommentLines) * 100 * SCALE
            <= subtree_weighted_comments(recs, dir) + subtree_sum(recs, dir, Field::LinesOfCode),
        subtree_sum(recs, dir, Field::LinesOfCode) > 0 ==> subtree_sum(recs, dir, Field::CommentLines) * 100 * SCALE
            < subtree_weighted_comments(recs, dir) + subtree_sum(recs, dir, Field::LinesOfCode),
        subtree_sum(recs, dir, Field::LinesOfCode) >= 0,
        subtree_sum(recs, dir, Field::LinesOfCode) > 0 ==> subtree_min_mi(recs, dir) is Some,
    decreases recs.len(),
{
    if recs.len() > 0 {
        let rest = recs.drop_last();
        assert(all_metrics_wf(rest)) by {
            assert forall|i: int| 0 <= i < rest.len() && (#[trigger] rest[i]).metrics is Some
                implies rest[i].metrics->Some_0.wf() by {
                assert(rest[i] == recs[i]);
            }
        }
        lemma_weighted_comments_bounds(rest, dir);
        let r = recs.last();
        assert(r == recs[recs.len() - 1]);
        let w0 = subtree_weighted_comments(rest, dir);
        let c0 = subtree_sum(rest, dir, Field::CommentLines);
        let l0 = subtree_sum(rest, dir, Field::LinesOfCode);
        if counts_toward(dir, r) && r.metrics is Some {
            let m = r.metrics->Some_0;
            let cp = m.spec_comments_percentage();
            if m.loc > 0 {
                lemma_percentage_floor(m.comment_lines as int, m.loc as int);
            }
            assert((c0 + m.comment_lines) * 100 * SCALE == c0 * 100 * SCALE + m.comment_lines * 100 * SCALE)
                by (nonlinear_arith);
        }
    }
}

/// A directory's comment percentage is the lines-of-code-weighted average of
/// its files' comment percentages, to within one unit of the fixed point:
/// `|cp * L - W| < L`, where `L` is the directory's lines and `W` the sum of
/// each file's percentage times its lines.
pub proof fn lemma_directory_comments_weighted_average(recs: Seq<FileStats>, d: FileStats)
    requires
        all_metrics_wf(recs),
        is_rollup_of(recs, d.path.deep_view(), d),
        0 < subtree_sum(recs, d.path.deep_view(), Field::LinesOfCode) <= u64::MAX,
    ensures
        d.metrics is Some,
        ({
            let dir = d.path.deep_view();
            let cp = d.metrics->Some_0.spec_comments_percentage();
            let l = subtree_sum(recs, dir, Field::LinesOfCode);
            let w = subtree_weighted_comments(recs, dir);
            w - l < cp * l && cp * l < w + l
        }),
{
    let dir = d.path.deep_view();
    lemma_weighted_comments_bounds(recs, dir);
    lemma_comment_lines_within_lines(recs, dir);
    let l = subtree_sum(recs, dir, Field::LinesOfCode);
    let c = subtree_sum(recs, dir, Field::CommentLines);
    let m = d.metrics->Some_0;
    assert(m.loc == l && m.comment_lines == c);
    lemma_percentage_floor(c, l);
}

/// A directory record holds, over all the files below it, the sum of their
/// lines of code (where it fits in 64 bits), the least of their
/// maintainability indices, and the sum of their changes (where it fits);
/// files without metrics count only towards the changes.
pub proof fn lemma_directory_totals(files: Seq<FileStats>, root: PathView, dirs: Seq<FileStats>, k: int)
    requires
        is_rollup_set(files, root, dirs),
        0 <= k < dirs.len(),
    ensures
        ({
            let d = dirs[k];
            let dir = d.path.deep_view();
            &&& d.path_type == PathType::Directory
            &&& subtree_min_mi(files, dir) is None <==> d.metrics is None
            &&& subtree_min_mi(files, dir) matches Some(mi) ==> d.metrics->Some_0.maintainability_index == mi
            &&& d.metrics is Some && subtree_sum(files, dir, Field::LinesOfCode) <= u64::MAX
                ==> d.metrics->Some_0.loc == subtree_sum(files, dir, Field::LinesOfCode)
            &&& subtree_sum(files, dir, Field::ChangesCount) <= u64::MAX
                ==> d.changes_count == subtree_sum(files, dir, Field::ChangesCount)
        }),
{
    let d = dirs[k];
    let dir = d.path.deep_view();
    assert(is_rollup_of(files, dir, d));
    lemma_sums_nonnegative(files, dir);
}

proof fn lemma_sums_nonnegative(recs: Seq<FileStats>, dir: PathView)
    ensures
        subtree_sum(recs, dir, Field::LinesOfCode) >= 0,
        subtree_sum(recs, dir, Field::ChangesCount) >= 0,
        subtree_min_mi(recs, dir) matches Some(v) ==> 0 <= v <= u64::MAX,
    decreases recs.len(),
{
    if recs.len() > 0 {
        lemma_sums_nonnegative(recs.drop_last(), dir);
    }
}

} // verus!
