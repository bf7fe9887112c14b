use vstd::prelude::*;

verus! {

/// Fractional metrics are held in thousandths of a unit.
pub const SCALE: u64 = 1000;

/// A maintainability index of 100, in thousandths.
pub const FULL_MAINTAINABILITY: u64 = 100000;

/// A path as a sequence of components (`/repo/src/a.py` is `["repo", "src", "a.py"]`).
pub type PathComponents = Vec<String>;

/// Whether a record stands for a source file or for a directory of them.
#[derive(Clone, Copy, Debug, PartialEq, Eq, Structural)]
pub enum PathType {
    File,
    Directory,
}

impl PathType {
    /// The word a report shows for this kind of path.
    pub fn name(&self) -> (r: &'static str)
        ensures
            *self == PathType::File ==> r@ == "file"@,
            *self == PathType::Directory ==> r@ == "directory"@,
    {
        proof {
            reveal_strlit("file");
            reveal_strlit("directory");
        }
        match self {
            PathType::File => "file",
            PathType::Directory => "directory",
        }
    }
}

/// What the static analysis reports for one file, in fixed point.
#[derive(Clone, Copy, Debug, PartialEq, Eq, Structural)]
pub struct RawMetrics {
    pub halstead_volume: u64,
    pub cyclomatic_complexity: u64,
    pub sloc: u64,
    pub cloc: u64,
    pub maintainability_index: u64,
}

/// The measured metrics of a file, or the rolled-up metrics of a directory.
///
/// `comment_lines` is kept instead of a percentage so that a directory's
/// percentage is the lines-of-code-weighted average of its files'.
#[derive(Clone, Copy, Debug, PartialEq, Eq, Structural)]
pub struct Metrics {
    pub halstead_volume: u64,
    pub cyclomatic_complexity: u64,
    pub loc: u64,
    pub comment_lines: u64,
    pub maintainability_index: u64,
}

pub open spec fn comments_percentage_of(comment_lines: int, loc: int) -> int {
    if loc == 0 {
        0
    } else {
        comment_lines * 100 * SCALE / loc
    }
}

impl Metrics {
    pub open spec fn wf(&self) -> bool {
        self.comment_lines <= self.loc
    }

    pub open spec fn spec_comments_percentage(&self) -> int {
        comments_percentage_of(self.comment_lines as int, self.loc as int)
    }

    /// Percentage of lines that are comments, in thousandths (0 where there are no lines).
    pub fn comments_percentage(&self) -> (r: u64)
        requires
            self.wf(),
        ensures
            r == self.spec_comments_percentage(),
            r <= 100 * SCALE,
    {
        if self.loc == 0 {
            0
        } else {
            let num: u128 = self.comment_lines as u128 * 100000u128;
            proof {
                assert(num <= self.loc * 100000) by (nonlinear_arith)
                    requires num == self.comment_lines * 100000, self.comment_lines <= self.loc;
                assert((num as int) / (self.loc as int) <= 100000) by (nonlinear_arith)
                    requires num <= self.loc * 100000, self.loc > 0;
            }
            (num / (self.loc as u128)) as u64
        }
    }
}

pub open spec fn normalised_metrics(raw: RawMetrics) -> Metrics {
    if raw.sloc == 0 {
        Metrics {
            halstead_volume: 0,
            cyclomatic_complexity: raw.cyclomatic_complexity,
            loc: 0,
            comment_lines: 0,
            maintainability_index: FULL_MAINTAINABILITY,
        }
    } else {
        Metrics {
            halstead_volume: raw.halstead_volume,
            cyclomatic_complexity: raw.cyclomatic_complexity,
            loc: raw.sloc,
            comment_lines: if raw.cloc <= raw.sloc { raw.cloc } else { raw.sloc },
            maintainability_index: raw.maintainability_index,
        }
    }
}

/// Turns what the analysis reports into a file's metrics. A file without
/// source lines is fully maintainable, has no comments and no volume; comment
/// lines never count beyond the source lines.
pub fn normalise_metrics(raw: &RawMetrics) -> (m: Metrics)
    ensures
        m == normalised_metrics(*raw),
        m.wf(),
        raw.sloc == 0 ==> m.maintainability_index == FULL_MAINTAINABILITY
            && m.spec_comments_percentage() == 0 && m.halstead_volume == 0,
{
    if raw.sloc == 0 {
        Metrics {
            halstead_volume: 0,
            cyclomatic_complexity: raw.cyclomatic_complexity,
            loc: 0,
            comment_lines: 0,
            maintainability_index: FULL_MAINTAINABILITY,
        }
    } else {
        Metrics {
            halstead_volume: raw.halstead_volume,
            cyclomatic_complexity: raw.cyclomatic_complexity,
            loc: raw.sloc,
            comment_lines: if raw.cloc <= raw.sloc { raw.cloc } else { raw.sloc },
            maintainability_index: raw.maintainability_index,
        }
    }
}

/// One record of the store: a file found under the analysed directory, or a
/// directory above such files. `metrics` is `None` where the analysis gave
/// nothing (the file could not be parsed) or, for a directory, where none of
/// its files has metrics.
#[derive(Clone, Debug, PartialEq)]
pub struct FileStats {
    pub path: PathComponents,
    pub path_type: PathType,
    pub metrics: Option<Metrics>,
    pub changes_count: u64,
}

} // verus!
