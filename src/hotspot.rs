use vstd::prelude::*;

use crate::aggregate::{all_metrics_wf, cap, is_rollup_set, rollup, is_directory_of, counts_toward};
use crate::paths::{components_from, is_prefix, is_source_file, is_source_path, is_under, join, relative_to, same_path, starts_with, PathView};
use crate::types::{normalise_metrics, normalised_metrics, FileStats, Metrics, PathType, RawMetrics, SCALE};

verus! {

/// The ways in which building the store can fail.
#[derive(Clone, Copy, Debug, PartialEq, Eq, Structural)]
pub enum HotspotError {
    /// A path that should lie under the repository root does not.
    PathOutsideRoot,
}

/// The ranking scalar of a record, in thousandths.
#[derive(Clone, Copy, Debug, PartialEq, Eq, Structural)]
pub enum HotspotIndex {
    /// The record has no metrics, so no index.
    Unset,
    Finite(u128),
    /// A maintainability index of zero: as urgent as it gets.
    Infinite,
}

/// `changes / (maintainability / 100)`, in thousandths; infinite where the
/// maintainability index is zero.
pub open spec fn hotspot_index_of(metrics: Option<Metrics>, changes_count: u64) -> HotspotIndex {
    match metrics {
        None => HotspotIndex::Unset,
        Some(m) => if m.maintainability_index == 0 {
            HotspotIndex::Infinite
        } else {
            HotspotIndex::Finite(
                (changes_count * 100 * SCALE * SCALE / (m.maintainability_index as int)) as u128,
            )
        },
    }
}

/// A record as reported: its path, its metrics and its hotspot index.
#[derive(Clone, Debug, PartialEq)]
pub struct HotspotStats {
    pub path: Vec<String>,
    pub path_type: PathType,
    pub metrics: Option<Metrics>,
    pub changes_count: u64,
    pub hotspot_index: HotspotIndex,
}

/// `h` reports `rec` with its path rewritten relative to `root`.
pub open spec fn is_report_of(root: PathView, rec: FileStats, h: HotspotStats) -> bool {
    &&& h.path.deep_view() == relative_to(root, rec.path.deep_view())
    &&& h.path_type == rec.path_type
    &&& h.metrics == rec.metrics
    &&& h.changes_count == rec.changes_count
    &&& h.hotspot_index == hotspot_index_of(rec.metrics, rec.changes_count)
}

/// Computes the hotspot index of a record's values.
pub fn hotspot_index(metrics: &Option<Metrics>, changes_count: u64) -> (r: HotspotIndex)
    ensures
        r == hotspot_index_of(*metrics, changes_count),
{
    match metrics {
        None => HotspotIndex::Unset,
        Some(m) => if m.maintainability_index == 0 {
            HotspotIndex::Infinite
        } else {
            let scaled: u128 = changes_count as u128 * 100000000u128;
            HotspotIndex::Finite(scaled / (m.maintainability_index as u128))
        },
    }
}

impl HotspotStats {
    /// The report of one record, path as it stands.
    pub fn new(file_stats: &FileStats) -> (r: HotspotStats)
        ensures
            r.path.deep_view() == file_stats.path.deep_view(),
            r.path_type == file_stats.path_type,
            r.metrics == file_stats.metrics,
            r.changes_count == file_stats.changes_count,
            r.hotspot_index == hotspot_index_of(file_stats.metrics, file_stats.changes_count),
    {
        let path = components_from(&file_stats.path, 0);
        assert(file_stats.path.deep_view().skip(0) =~= file_stats.path.deep_view());
        HotspotStats {
            path,
            path_type: file_stats.path_type,
            metrics: file_stats.metrics,
            changes_count: file_stats.changes_count,
            hotspot_index: hotspot_index(&file_stats.metrics, file_stats.changes_count),
        }
    }

    /// The report of one record, its path rewritten relative to `root`.
    pub fn relative_to_root(file_stats: &FileStats, root: &Vec<String>) -> (r: HotspotStats)
        requires
            is_prefix(root.deep_view(), file_stats.path.deep_view()),
        ensures
            is_report_of(root.deep_view(), *file_stats, r),
    {
        HotspotStats {
            path: components_from(&file_stats.path, root.len()),
            path_type: file_stats.path_type,
            metrics: file_stats.metrics,
            changes_count: file_stats.changes_count,
            hotspot_index: hotspot_index(&file_stats.metrics, file_stats.changes_count),
        }
    }
}

/// How many of the changed paths `touched`, each relative to `root`, name `path`.
pub open spec fn touch_count(root: PathView, touched: Seq<PathView>, path: PathView) -> nat
    decreases touched.len(),
{
    if touched.len() == 0 {
        0
    } else {
        touch_count(root, touched.drop_last(), path) + if root + touched.last() == path { 1nat } else { 0nat }
    }
}

/// The store of one analysis: the repository root, the analysed directory,
/// the optional excluded path, the paths still to visit, and one record per
/// source file found.
pub struct TechDebtHotspots {
    git_base_path: Vec<String>,
    path: Vec<String>,
    exclude: Option<Vec<String>>,
    pending: Vec<Vec<String>>,
    stats: Vec<FileStats>,
}

impl TechDebtHotspots {
    /// The repository root.
    pub closed spec fn root(&self) -> PathView {
        self.git_base_path.deep_view()
    }

    /// The analysed directory.
    pub closed spec fn directory(&self) -> PathView {
        self.path.deep_view()
    }

    /// `p` is the excluded path or lies below it.
    pub closed spec fn excluded(&self, p: PathView) -> bool {
        match self.exclude {
            None => false,
            Some(e) => is_prefix(e.deep_view(), p),
        }
    }

    /// The paths still to visit; the last is visited first.
    pub closed spec fn pending(&self) -> Seq<PathView> {
        self.pending.deep_view()
    }

    /// The file records, in the order in which they were found.
    pub closed spec fn records(&self) -> Seq<FileStats> {
        self.stats@
    }

    /// Some record has the path `p`.
    pub open spec fn has_record(&self, p: PathView) -> bool {
        exists|i: int| 0 <= i < self.records().len() && (#[trigger] self.records()[i]).path.deep_view() == p
    }

    /// Every record is a source file below the root, outside the excluded
    /// path, with consistent metrics; no two share a path.
    pub closed spec fn wf(&self) -> bool {
        &&& forall|i: int| 0 <= i < self.stats@.len() ==> {
            let r = #[trigger] self.stats@[i];
            &&& r.path_type == PathType::File
            &&& is_under(self.root(), r.path.deep_view())
            &&& is_source_path(r.path.deep_view())
            &&& !self.excluded(r.path.deep_view())
            &&& (r.metrics matches Some(m) ==> m.wf())
        }
        &&& forall|i: int, j: int| 0 <= i < j < self.stats@.len()
            ==> (#[trigger] self.stats@[i]).path.deep_view() != (#[trigger] self.stats@[j]).path.deep_view()
    }

    /// Starts an analysis of `directory` inside the repository whose root is
    /// `git_base_path`, leaving out `exclude` and everything below it.
    pub fn new(directory: Vec<String>, exclude: Option<Vec<String>>, git_base_path: Vec<String>) -> (r: Result<Self, HotspotError>)
        ensures
            r is Ok <==> is_prefix(git_base_path.deep_view(), directory.deep_view()),
            r matches Err(e) ==> e == HotspotError::PathOutsideRoot,
            r matches Ok(h) ==> {
                &&& h.wf()
                &&& h.root() == git_base_path.deep_view()
                &&& h.directory() == directory.deep_view()
                &&& h.records().len() == 0
                &&& h.pending() == seq![directory.deep_view()]
                &&& forall|p: PathView| h.excluded(p) <==> (exclude matches Some(e) && is_prefix(e.deep_view(), p))
            },
    {
        if !starts_with(&directory, &git_base_path) {
            return Err(HotspotError::PathOutsideRoot);
        }
        let start = components_from(&directory, 0);
        assert(directory.deep_view().skip(0) =~= directory.deep_view());
        let mut pending: Vec<Vec<String>> = Vec::new();
        pending.push(start);
        let h = TechDebtHotspots { git_base_path, path: directory, exclude, pending, stats: Vec::new() };
        assert(h.pending() =~= seq![h.directory()]);
        Ok(h)
    }

    /// Whether `p` is the excluded path or lies below it.
    pub fn is_excluded(&self, p: &Vec<String>) -> (r: bool)
        ensures
            r == self.excluded(p.deep_view()),
    {
        match &self.exclude {
            None => false,
            Some(e) => starts_with(p, e),
        }
    }

    /// Takes the next path to visit, passing over excluded ones; `None`
    /// once nothing is left.
    pub fn next_path(&mut self) -> (r: Option<Vec<String>>)
        ensures
            final(self).records() == old(self).records(),
            final(self).root() == old(self).root(),
            final(self).directory() == old(self).directory(),
            forall|p: PathView| final(self).excluded(p) == old(self).excluded(p),
            old(self).wf() ==> final(self).wf(),
            r is None ==> final(self).pending().len() == 0
                && forall|m: int| 0 <= m < old(self).pending().len() ==> old(self).excluded(#[trigger] old(self).pending()[m]),
            r matches Some(p) ==> {
                &&& !old(self).excluded(p.deep_view())
                &&& exists|k: int| {
                    &&& 0 <= k < old(self).pending().len()
                    &&& old(self).pending()[k] == p.deep_view()
                    &&& final(self).pending() == old(self).pending().take(k)
                    &&& forall|m: int| k < m < old(self).pending().len() ==> old(self).excluded(#[trigger] old(self).pending()[m])
                }
            },
    {
        let ghost start = self.pending();
        while self.pending.len() > 0
            invariant
                self.records() == old(self).records(),
                self.git_base_path == old(self).git_base_path,
                self.path == old(self).path,
                self.exclude == old(self).exclude,
                start == old(self).pending(),
                self.pending().len() <= start.len(),
                self.pending() == start.take(self.pending().len() as int),
                forall|m: int| self.pending().len() <= m < start.len() ==> old(self).excluded(#[trigger] start[m]),
            decreases self.pending.len(),
        {
            let ghost before = self.pending();
            let candidate = self.pending.pop().unwrap();
            proof {
                assert(self.pending() =~= before.drop_last());
                assert(candidate.deep_view() == before.last());
                assert(self.pending() =~= start.take(self.pending().len() as int));
            }
            if !self.is_excluded(&candidate) {
                return Some(candidate);
            }
        }
        None
    }

    /// Queues the entries of a visited directory.
    pub fn push_children(&mut self, children: Vec<Vec<String>>)
        ensures
            final(self).pending() == old(self).pending() + children.deep_view(),
            final(self).records() == old(self).records(),
            final(self).root() == old(self).root(),
            final(self).directory() == old(self).directory(),
            forall|p: PathView| final(self).excluded(p) == old(self).excluded(p),
            old(self).wf() ==> final(self).wf(),
    {
        let ghost start = self.pending();
        let mut i: usize = 0;
        while i < children.len()
            invariant
                i <= children.len(),
                self.records() == old(self).records(),
                self.git_base_path == old(self).git_base_path,
                self.path == old(self).path,
                self.exclude == old(self).exclude,
                start == old(self).pending(),
                self.pending() == start + children.deep_view().take(i as int),
            decreases children.len() - i,
        {
            let c = components_from(&children[i], 0);
            let ghost before = self.pending();
            self.pending.push(c);
            proof {
                assert(children@[i as int].deep_view().skip(0) =~= children.deep_view()[i as int]);
                assert(self.pending() =~= before.push(children.deep_view()[i as int]));
                assert(children.deep_view().take(i + 1) =~= children.deep_view().take(i as int).push(
                    children.deep_view()[i as int],
                ));
            }
            i = i + 1;
        }
        assert(children.deep_view().take(i as int) =~= children.deep_view());
    }
    /// The index of the record with path `p`, if there is one.
    fn find_record(&self, p: &Vec<String>) -> (r: Option<usize>)
        ensures
            r matches Some(i) ==> i < self.records().len() && self.records()[i as int].path.deep_view() == p.deep_view(),
            r is None ==> !self.has_record(p.deep_view()),
    {
        let mut i: usize = 0;
        while i < self.stats.len()
            invariant
                i <= self.stats.len(),
                forall|k: int| 0 <= k < i ==> (#[trigger] self.stats@[k]).path.deep_view() != p.deep_view(),
            decreases self.stats.len() - i,
        {
            if same_path(&self.stats[i].path, p) {
                return Some(i);
            }
            i = i + 1;
        }
        None
    }

    /// Records `path` as a source file to analyse, where it is one: a `.py`
    /// file below the root, outside the excluded path, not yet recorded.
    pub fn add_candidate(&mut self, path: Vec<String>) -> (added: bool)
        requires
            old(self).wf(),
        ensures
            final(self).wf(),
            final(self).root() == old(self).root(),
            final(self).directory() == old(self).directory(),
            final(self).pending() == old(self).pending(),
            forall|p: PathView| final(self).excluded(p) == old(self).excluded(p),
            added == (is_source_path(path.deep_view()) && !old(self).excluded(path.deep_view())
                && is_under(old(self).root(), path.deep_view()) && !old(self).has_record(path.deep_view())),
            added ==> final(self).records().len() == old(self).records().len() + 1
                && final(self).records().drop_last() == old(self).records()
                && is_new_file_record(final(self).records().last(), path.deep_view()),
            !added ==> final(self).records() == old(self).records(),
    {
        if !is_source_file(&path) || self.is_excluded(&path) || path.len() <= self.git_base_path.len()
            || !starts_with(&path, &self.git_base_path) {
            proof {
                if path.len() <= self.git_base_path.len() {
                    assert(path.deep_view().len() == path@.len());
                }
            }
            return false;
        }
        if self.find_record(&path).is_some() {
            return false;
        }
        let ghost before = self.stats@;
        let ghost pv = path.deep_view();
        self.stats.push(FileStats { path, path_type: PathType::File, metrics: None, changes_count: 0 });
        proof {
            assert(self.stats@.drop_last() =~= before);
            assert forall|i: int, j: int| 0 <= i < j < self.stats@.len()
                implies (#[trigger] self.stats@[i]).path.deep_view() != (#[trigger] self.stats@[j]).path.deep_view() by {
                if j == self.stats@.len() - 1 {
                    assert(self.stats@[i] == before[i]);
                    assert(self.stats@[j].path.deep_view() == pv);
                } else {
                    assert(self.stats@[i] == before[i]);
                    assert(self.stats@[j] == before[j]);
                }
            }
            assert forall|i: int| 0 <= i < self.stats@.len() implies {
                let r = #[trigger] self.stats@[i];
                &&& r.path_type == PathType::File
                &&& is_under(self.root(), r.path.deep_view())
                &&& is_source_path(r.path.deep_view())
                &&& !self.excluded(r.path.deep_view())
                &&& (r.metrics matches Some(m) ==> m.wf())
            } by {
                if i < before.len() {
                    assert(self.stats@[i] == before[i]);
                }
            }
        }
        true
    }

    /// The paths of the records, in order.
    pub fn file_paths(&self) -> (r: Vec<Vec<String>>)
        ensures
            r.len() == self.records().len(),
            forall|i: int| 0 <= i < r.len() ==> (#[trigger] r@[i]).deep_view() == self.records()[i].path.deep_view(),
    {
        let mut r: Vec<Vec<String>> = Vec::new();
        let mut i: usize = 0;
        while i < self.stats.len()
            invariant
                i <= self.stats.len(),
                r.len() == i,
                forall|k: int| 0 <= k < i ==> (#[trigger] r@[k]).deep_view() == self.records()[k].path.deep_view(),
            decreases self.stats.len() - i,
        {
            let p = components_from(&self.stats[i].path, 0);
            assert(self.stats@[i as int].path.deep_view().skip(0) =~= self.stats@[i as int].path.deep_view());
            r.push(p);
            i = i + 1;
        }
        r
    }

    /// Stores what the analysis reported for the file `path`: its metrics, or
    /// `None` where the file could not be analysed.
    pub fn update_metrics(&mut self, path: &Vec<String>, raw: Option<RawMetrics>)
        requires
            old(self).wf(),
        ensures
            final(self).wf(),
            final(self).root() == old(self).root(),
            final(self).directory() == old(self).directory(),
            final(self).pending() == old(self).pending(),
            forall|p: PathView| final(self).excluded(p) == old(self).excluded(p),
            final(self).records().len() == old(self).records().len(),
            forall|i: int| 0 <= i < old(self).records().len() ==> {
                let (o, n) = (old(self).records()[i], #[trigger] final(self).records()[i]);
                &&& n.path == o.path
                &&& n.path_type == o.path_type
                &&& n.changes_count == o.changes_count
                &&& n.metrics == if o.path.deep_view() == path.deep_view() { measured(raw) } else { o.metrics }
            },
    {
        match self.find_record(path) {
            None => {},
            Some(i) => {
                let m = match &raw {
                    None => None,
                    Some(r) => Some(normalise_metrics(r)),
                };
                let ghost before = self.stats@;
                self.stats[i].metrics = m;
                proof {
                    assert forall|k: int| 0 <= k < before.len() && k != i implies self.stats@[k] == before[k] by {}
                    assert forall|k: int| 0 <= k < before.len() && k != i
                        implies before[k].path.deep_view() != path.deep_view() by {
                        if k < i {
                            assert(before[k].path.deep_view() != before[i as int].path.deep_view());
                        } else {
                            assert(before[i as int].path.deep_view() != before[k].path.deep_view());
                        }
                    }
                    assert forall|a: int, b: int| 0 <= a < b < self.stats@.len()
                        implies (#[trigger] self.stats@[a]).path.deep_view() != (#[trigger] self.stats@[b]).path.deep_view() by {
                        assert(before[a].path.deep_view() != before[b].path.deep_view());
                    }
                }
            },
        }
    }

    /// Counts the changes in `touched`, one entry per file per commit, each
    /// relative to the root: every record gains one change for each entry
    /// that names it. Entries that name no record are passed over.
    pub fn collect_changes_count(&mut self, touched: &Vec<Vec<String>>)
        requires
            old(self).wf(),
        ensures
            final(self).wf(),
            final(self).root() == old(self).root(),
            final(self).directory() == old(self).directory(),
            final(self).pending() == old(self).pending(),
            forall|p: PathView| final(self).excluded(p) == old(self).excluded(p),
            final(self).records().len() == old(self).records().len(),
            forall|i: int| 0 <= i < old(self).records().len() ==> {
                let (o, n) = (old(self).records()[i], #[trigger] final(self).records()[i]);
                &&& n.path == o.path
                &&& n.path_type == o.path_type
                &&& n.metrics == o.metrics
                &&& n.changes_count == cap(o.changes_count + touch_count(old(self).root(), touched.deep_view(), o.path.deep_view()))
            },
    {
        let ghost start = self.stats@;
        let ghost rv = self.root();
        let mut k: usize = 0;
        while k < touched.len()
            invariant
                k <= touched.len(),
                self.wf(),
                rv == self.root(),
                self.git_base_path == old(self).git_base_path,
                self.path == old(self).path,
                self.exclude == old(self).exclude,
                self.pending == old(self).pending,
                start == old(self).records(),
                self.stats@.len() == start.len(),
                forall|i: int| 0 <= i < start.len() ==> {
                    let (o, n) = (start[i], #[trigger] self.stats@[i]);
                    &&& n.path == o.path
                    &&& n.path_type == o.path_type
                    &&& n.metrics == o.metrics
                    &&& n.changes_count == cap(o.changes_count + touch_count(rv, touched.deep_view().take(k as int), o.path.deep_view()))
                },
            decreases touched.len() - k,
        {
            let absolute = join(&self.git_base_path, &touched[k]);
            let ghost tk = touched.deep_view().take(k + 1);
            proof {
                assert(tk.drop_last() =~= touched.deep_view().take(k as int));
                assert(tk.last() == touched.deep_view()[k as int]);
            }
            match self.find_record(&absolute) {
                None => {
                    proof {
                        assert forall|i: int| 0 <= i < start.len() implies
                            touch_count(rv, tk, start[i].path.deep_view())
                                == touch_count(rv, touched.deep_view().take(k as int), start[i].path.deep_view()) by {
                            assert(self.stats@[i].path == start[i].path);
                        }
                    }
                },
                Some(i) => {
                    let ghost before = self.stats@;
                    let c = self.stats[i].changes_count;
                    self.stats[i].changes_count = if c < u64::MAX { c + 1 } else { c };
                    proof {
                        assert forall|a: int| 0 <= a < start.len() implies {
                            let (o, n) = (start[a], #[trigger] self.stats@[a]);
                            &&& n.path == o.path
                            &&& n.path_type == o.path_type
                            &&& n.metrics == o.metrics
                            &&& n.changes_count == cap(o.changes_count + touch_count(rv, tk, o.path.deep_view()))
                        } by {
                            assert(absolute.deep_view() == rv + tk.last());
                            assert(before[a].path == start[a].path);
                            let pa = start[a].path.deep_view();
                            assert(touch_count(rv, tk, pa) == touch_count(rv, tk.drop_last(), pa)
                                + if rv + tk.last() == pa { 1nat } else { 0nat });
                            if a == i {
                                assert(pa == absolute.deep_view());
                                assert(self.stats@[a].changes_count == if c < u64::MAX { (c + 1) as u64 } else { c });
                                assert(before[a].changes_count == c);
                            } else {
                                assert(self.stats@[a] == before[a]);
                                if a < i {
                                    assert(before[a].path.deep_view() != before[i as int].path.deep_view());
                                } else {
                                    assert(before[i as int].path.deep_view() != before[a].path.deep_view());
                                }
                            }
                        }
                        assert forall|a: int, b: int| 0 <= a < b < self.stats@.len()
                            implies (#[trigger] self.stats@[a]).path.deep_view() != (#[trigger] self.stats@[b]).path.deep_view() by {
                            assert(before[a].path.deep_view() != before[b].path.deep_view());
                        }
                    }
                },
            }
            k = k + 1;
        }
        assert(touched.deep_view().take(k as int) =~= touched.deep_view());
    }

    /// The report: one entry per file record, then one per directory between
    /// the root and the files (see `rollup`), every path relative to the
    /// root, every entry with its hotspot index.
    pub fn stats(&self) -> (r: Vec<HotspotStats>)
        requires
            self.wf(),
        ensures
            exists|dirs: Seq<FileStats>| {
                &&& is_rollup_set(self.records(), self.root(), dirs)
                &&& r.len() == self.records().len() + dirs.len()
                &&& forall|i: int| 0 <= i < self.records().len()
                    ==> is_report_of(self.root(), self.records()[i], #[trigger] r@[i])
                &&& forall|k: int| 0 <= k < dirs.len()
                    ==> is_report_of(self.root(), dirs[k], #[trigger] r@[self.records().len() + k])
            },
    {
        proof {
            assert(all_metrics_wf(self.stats@)) by {
                assert forall|i: int| 0 <= i < self.stats@.len() && (#[trigger] self.stats@[i]).metrics is Some
                    implies self.stats@[i].metrics->Some_0.wf() by {}
            }
        }
        let dirs = rollup(&self.stats, &self.git_base_path);
        let mut r: Vec<HotspotStats> = Vec::new();
        let mut i: usize = 0;
        while i < self.stats.len()
            invariant
                self.wf(),
                i <= self.stats.len(),
                r.len() == i,
                forall|k: int| 0 <= k < i ==> is_report_of(self.root(), self.records()[k], #[trigger] r@[k]),
            decreases self.stats.len() - i,
        {
            assert(is_under(self.root(), self.stats@[i as int].path.deep_view()));
            r.push(HotspotStats::relative_to_root(&self.stats[i], &self.git_base_path));
            i = i + 1;
        }
        let n = self.stats.len();
        let mut k: usize = 0;
        while k < dirs.len()
            invariant
                k <= dirs.len(),
                n == self.records().len(),
                r.len() == n + k,
                is_rollup_set(self.records(), self.root(), dirs@),
                forall|a: int| 0 <= a < n ==> is_report_of(self.root(), self.records()[a], #[trigger] r@[a]),
                forall|a: int| 0 <= a < k ==> is_report_of(self.root(), dirs@[a], #[trigger] r@[n + a]),
            decreases dirs.len() - k,
        {
            assert(is_directory_of(self.records(), self.root(), dirs@[k as int].path.deep_view()));
            r.push(HotspotStats::relative_to_root(&dirs[k], &self.git_base_path));
            proof {
                assert(r@[n + k] == r@[r.len() - 1]);
            }
            k = k + 1;
        }
        r
    }
}

/// A record just found: a file with no metrics and no changes yet.
pub open spec fn is_new_file_record(r: FileStats, p: PathView) -> bool {
    &&& r.path.deep_view() == p
    &&& r.path_type == PathType::File
    &&& r.metrics is None
    &&& r.changes_count == 0
}

/// The metrics of a file as the analysis reported them.
pub open spec fn measured(raw: Option<RawMetrics>) -> Option<Metrics> {
    match raw {
        None => None,
        Some(r) => Some(normalised_metrics(r)),
    }
}

/// No record of the report, file or directory, is the excluded path or lies
/// below it.
pub proof fn lemma_nothing_excluded(h: TechDebtHotspots, dirs: Seq<FileStats>)
    requires
        h.wf(),
        is_rollup_set(h.records(), h.root(), dirs),
    ensures
        forall|i: int| 0 <= i < h.records().len() ==> !h.excluded(#[trigger] h.records()[i].path.deep_view()),
        forall|k: int| 0 <= k < dirs.len() ==> !h.excluded(#[trigger] dirs[k].path.deep_view()),
{
    h.lemma_records_not_excluded();
    assert forall|k: int| 0 <= k < dirs.len() implies !h.excluded(#[trigger] dirs[k].path.deep_view()) by {
        let d = dirs[k].path.deep_view();
        assert(is_directory_of(h.records(), h.root(), d));
        let i = choose|i: int| 0 <= i < h.records().len() && counts_toward(d, #[trigger] h.records()[i]);
        let p = h.records()[i].path.deep_view();
        assert(p.take(d.len() as int) == d);
        assert(!h.excluded(p));
        if h.excluded(d) {
            h.lemma_excluded_inherited(d, p);
        }
    }
}

impl TechDebtHotspots {
    proof fn lemma_records_not_excluded(&self)
        requires
            self.wf(),
        ensures
            forall|i: int| 0 <= i < self.records().len() ==> !self.excluded(#[trigger] self.records()[i].path.deep_view()),
    {
        assert forall|i: int| 0 <= i < self.records().len() implies !self.excluded(#[trigger] self.records()[i].path.deep_view()) by {
            assert(self.stats@[i] == self.records()[i]);
        }
    }

    proof fn lemma_excluded_inherited(&self, d: PathView, p: PathView)
        requires
            d.len() <= p.len(),
            p.take(d.len() as int) == d,
            self.excluded(d),
        ensures
            self.excluded(p),
    {
        let e = self.exclude->Some_0.deep_view();
        assert(p.take(e.len() as int) =~= d.take(e.len() as int));
    }
}

/// A log of a single commit lists each changed path once: counting it gives
/// a record one change where the commit touched it and none otherwise.
pub proof fn lemma_single_commit_touches(root: PathView, touched: Seq<PathView>, path: PathView)
    requires
        forall|a: int, b: int| 0 <= a < b < touched.len() ==> touched[a] != touched[b],
    ensures
        touch_count(root, touched, path) <= 1,
        touch_count(root, touched, path) == 1 <==> exists|k: int| 0 <= k < touched.len() && root + touched[k] == path,
    decreases touched.len(),
{
    if touched.len() > 0 {
        let rest = touched.drop_last();
        lemma_single_commit_touches(root, rest, path);
        let last = touched.last();
        if root + last == path {
            assert forall|k: int| 0 <= k < rest.len() implies root + rest[k] != path by {
                if root + rest[k] == path {
                    assert(rest[k] =~= (root + rest[k]).skip(root.len() as int));
                    assert(last =~= (root + last).skip(root.len() as int));
                    assert(touched[k] != touched[touched.len() - 1]);
                }
            }
            assert(touched[touched.len() - 1] == last);
        } else {
            if exists|k: int| 0 <= k < touched.len() && root + touched[k] == path {
                let k = choose|k: int| 0 <= k < touched.len() && root + touched[k] == path;
                assert(k < rest.len());
                assert(rest[k] == touched[k]);
            }
            assert forall|k: int| 0 <= k < rest.len() && root + rest[k] == path
                implies exists|k2: int| 0 <= k2 < touched.len() && root + touched[k2] == path by {
                assert(touched[k] == rest[k]);
            }
        }
    }
}

} // verus!
