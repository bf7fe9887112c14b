use tech_debt_hotspot::formatting::{decimal, fixed, path_string, row, rows, Output, OutputFormat};
use tech_debt_hotspot::hotspot::{hotspot_index, HotspotError, HotspotIndex, HotspotStats, TechDebtHotspots};
use tech_debt_hotspot::paths::{compare_bytes, is_source_file, join, relative_path};
use tech_debt_hotspot::sorting::{sort_stats_by, SortBy};
use tech_debt_hotspot::types::{normalise_metrics, FileStats, Metrics, PathType, RawMetrics};

fn p(parts: &[&str]) -> Vec<String> {
    parts.iter().map(|s| s.to_string()).collect()
}

fn raw(sloc: u64, cloc: u64, mi: u64) -> RawMetrics {
    RawMetrics {
        halstead_volume: 1000,
        cyclomatic_complexity: 2000,
        sloc,
        cloc,
        maintainability_index: mi,
    }
}

fn find<'a>(stats: &'a [HotspotStats], path: &[&str]) -> &'a HotspotStats {
    let want = p(path);
    stats.iter().find(|s| s.path == want).expect("no entry with that path")
}

/// A store over /repo holding `a.py` (5 lines) and `sub/b.py` (10 lines).
fn two_file_repo() -> TechDebtHotspots {
    let mut h = TechDebtHotspots::new(p(&["repo"]), None, p(&["repo"])).unwrap();
    assert!(h.add_candidate(p(&["repo", "a.py"])));
    assert!(h.add_candidate(p(&["repo", "sub", "b.py"])));
    h.update_metrics(&p(&["repo", "a.py"]), Some(raw(5, 1, 70000)));
    h.update_metrics(&p(&["repo", "sub", "b.py"]), Some(raw(10, 2, 60000)));
    h
}

#[test]
fn test_hotspot_stats_new() {
    let file_stats = FileStats {
        path: p(&["src", "main.rs"]),
        path_type: PathType::File,
        metrics: Some(Metrics {
            halstead_volume: 10000,
            cyclomatic_complexity: 5000,
            loc: 100,
            comment_lines: 20,
            maintainability_index: 80000,
        }),
        changes_count: 10,
    };

    let actual = HotspotStats::new(&file_stats);

    let expected = HotspotStats {
        path: p(&["src", "main.rs"]),
        path_type: PathType::File,
        metrics: Some(Metrics {
            halstead_volume: 10000,
            cyclomatic_complexity: 5000,
            loc: 100,
            comment_lines: 20,
            maintainability_index: 80000,
        }),
        changes_count: 10,
        hotspot_index: HotspotIndex::Finite(12500),
    };
    assert_eq!(actual, expected);
    assert_eq!(actual.metrics.unwrap().comments_percentage(), 20000);
}

#[test]
fn zero_line_file_is_fully_maintainable() {
    let m = normalise_metrics(&RawMetrics {
        halstead_volume: 4500,
        cyclomatic_complexity: 1000,
        sloc: 0,
        cloc: 3,
        maintainability_index: 0,
    });
    assert_eq!(m.maintainability_index, 100000);
    assert_eq!(m.comments_percentage(), 0);
    assert_eq!(m.halstead_volume, 0);
    assert_eq!(m.loc, 0);
}

#[test]
fn measured_file_keeps_reported_metrics() {
    let m = normalise_metrics(&raw(40, 10, 55500));
    assert_eq!(m.loc, 40);
    assert_eq!(m.comment_lines, 10);
    assert_eq!(m.comments_percentage(), 25000);
    assert_eq!(m.maintainability_index, 55500);
    assert_eq!(m.halstead_volume, 1000);
    let clamped = normalise_metrics(&raw(4, 9, 55500));
    assert_eq!(clamped.comment_lines, 4);
    assert_eq!(clamped.comments_percentage(), 100000);
}

#[test]
fn hotspot_index_formula_and_infinity() {
    let m = |mi: u64| Some(Metrics {
        halstead_volume: 0,
        cyclomatic_complexity: 0,
        loc: 1,
        comment_lines: 0,
        maintainability_index: mi,
    });
    assert_eq!(hotspot_index(&m(0), 7), HotspotIndex::Infinite);
    assert_eq!(hotspot_index(&m(0), 0), HotspotIndex::Infinite);
    assert_eq!(hotspot_index(&m(50000), 3), HotspotIndex::Finite(6000));
    assert_eq!(hotspot_index(&m(100000), 4), HotspotIndex::Finite(4000));
    assert_eq!(hotspot_index(&m(30000), 1), HotspotIndex::Finite(3333));
    assert_eq!(hotspot_index(&None, 5), HotspotIndex::Unset);
}

#[test]
fn end_to_end_two_files() {
    let mut h = two_file_repo();
    h.collect_changes_count(&vec![p(&["a.py"]), p(&["sub", "b.py"]), p(&["sub", "b.py"])]);
    let stats = h.stats();
    assert_eq!(stats.len(), 3);
    let sub = find(&stats, &["sub"]);
    assert_eq!(sub.path_type, PathType::Directory);
    assert_eq!(sub.metrics.unwrap().loc, 10);
    assert_eq!(sub.changes_count, 2);
    let a = find(&stats, &["a.py"]);
    assert_eq!(a.path_type, PathType::File);
    assert_eq!(a.changes_count, 1);
    assert_eq!(a.metrics.unwrap().loc, 5);
    let b = find(&stats, &["sub", "b.py"]);
    assert_eq!(b.changes_count, 2);
    assert_eq!(b.hotspot_index, HotspotIndex::Finite(3333));
}

#[test]
fn since_filter_counts_only_listed_commits() {
    // The log after the date filter holds a single commit, touching b.py.
    let mut h = two_file_repo();
    h.collect_changes_count(&vec![p(&["sub", "b.py"])]);
    let stats = h.stats();
    assert_eq!(find(&stats, &["a.py"]).changes_count, 0);
    assert_eq!(find(&stats, &["sub", "b.py"]).changes_count, 1);
    assert_eq!(find(&stats, &["sub"]).changes_count, 1);
}

#[test]
fn unknown_touched_paths_are_ignored() {
    let mut h = two_file_repo();
    h.collect_changes_count(&vec![p(&["gone.py"]), p(&["sub", "c.py"]), p(&["sub"]), vec![]]);
    let stats = h.stats();
    assert!(stats.iter().all(|s| s.changes_count == 0));
}

#[test]
fn rollup_reaches_every_ancestor() {
    let mut h = TechDebtHotspots::new(p(&["r"]), None, p(&["r"])).unwrap();
    assert!(h.add_candidate(p(&["r", "x", "y", "c.py"])));
    assert!(h.add_candidate(p(&["r", "x", "d.py"])));
    h.update_metrics(&p(&["r", "x", "y", "c.py"]), Some(raw(7, 0, 40000)));
    h.update_metrics(&p(&["r", "x", "d.py"]), Some(raw(3, 0, 90000)));
    h.collect_changes_count(&vec![p(&["x", "y", "c.py"]), p(&["x", "d.py"]), p(&["x", "d.py"])]);
    let stats = h.stats();
    assert_eq!(stats.len(), 4);
    let x = find(&stats, &["x"]).metrics.unwrap();
    assert_eq!(x.loc, 10);
    assert_eq!(x.maintainability_index, 40000);
    assert_eq!(x.halstead_volume, 2000);
    assert_eq!(x.cyclomatic_complexity, 4000);
    assert_eq!(find(&stats, &["x"]).changes_count, 3);
    let y = find(&stats, &["x", "y"]);
    assert_eq!(y.metrics.unwrap().loc, 7);
    assert_eq!(y.changes_count, 1);
    assert!(stats.iter().all(|s| !s.path.is_empty()));
}

#[test]
fn directory_comments_are_weighted_by_lines() {
    let mut h = TechDebtHotspots::new(p(&["r"]), None, p(&["r"])).unwrap();
    assert!(h.add_candidate(p(&["r", "d", "a.py"])));
    assert!(h.add_candidate(p(&["r", "d", "b.py"])));
    h.update_metrics(&p(&["r", "d", "a.py"]), Some(raw(10, 5, 50000)));
    h.update_metrics(&p(&["r", "d", "b.py"]), Some(raw(30, 3, 50000)));
    let stats = h.stats();
    let d = find(&stats, &["d"]).metrics.unwrap();
    assert_eq!(d.loc, 40);
    assert_eq!(d.comments_percentage(), 20000);
}

#[test]
fn unparsable_files_leave_metrics_unset() {
    let mut h = TechDebtHotspots::new(p(&["r"]), None, p(&["r"])).unwrap();
    assert!(h.add_candidate(p(&["r", "d", "bad.py"])));
    assert!(h.add_candidate(p(&["r", "e", "bad.py"])));
    assert!(h.add_candidate(p(&["r", "e", "good.py"])));
    h.update_metrics(&p(&["r", "d", "bad.py"]), None);
    h.update_metrics(&p(&["r", "e", "bad.py"]), None);
    h.update_metrics(&p(&["r", "e", "good.py"]), Some(raw(8, 0, 75000)));
    let stats = h.stats();
    assert_eq!(find(&stats, &["d", "bad.py"]).metrics, None);
    assert_eq!(find(&stats, &["d", "bad.py"]).hotspot_index, HotspotIndex::Unset);
    assert_eq!(find(&stats, &["d"]).metrics, None);
    let e = find(&stats, &["e"]).metrics.unwrap();
    assert_eq!(e.maintainability_index, 75000);
    assert_eq!(e.loc, 8);
}

#[test]
fn excluded_paths_never_become_records() {
    let mut h = TechDebtHotspots::new(p(&["r"]), Some(p(&["r", "skip"])), p(&["r"])).unwrap();
    assert_eq!(h.next_path(), Some(p(&["r"])));
    h.push_children(vec![p(&["r", "a.py"]), p(&["r", "skip"]), p(&["r", "skip", "x.py"])]);
    assert_eq!(h.next_path(), Some(p(&["r", "a.py"])));
    assert_eq!(h.next_path(), None);
    assert!(!h.add_candidate(p(&["r", "skip", "x.py"])));
    assert!(!h.add_candidate(p(&["r", "skip"])));
    assert!(h.add_candidate(p(&["r", "skipped.py"])));
    assert!(h.add_candidate(p(&["r", "a.py"])));
    assert!(!h.add_candidate(p(&["r", "a.py"])));
    assert!(!h.add_candidate(p(&["r", "notes.txt"])));
    assert!(!h.add_candidate(p(&["elsewhere", "b.py"])));
    assert_eq!(h.file_paths(), vec![p(&["r", "skipped.py"]), p(&["r", "a.py"])]);
    let stats = h.stats();
    assert!(stats.iter().all(|s| s.path.first().map(|c| c.as_str()) != Some("skip")));
}

#[test]
fn new_rejects_directory_outside_root() {
    let r = TechDebtHotspots::new(p(&["other"]), None, p(&["repo"]));
    assert!(matches!(r, Err(HotspotError::PathOutsideRoot)));
    assert!(TechDebtHotspots::new(p(&["repo", "src"]), None, p(&["repo"])).is_ok());
}

fn entry(path: &[&str], loc: Option<u64>, changes: u64, index: HotspotIndex) -> HotspotStats {
    HotspotStats {
        path: p(path),
        path_type: PathType::File,
        metrics: loc.map(|loc| Metrics {
            halstead_volume: loc * 10,
            cyclomatic_complexity: 0,
            loc,
            comment_lines: 0,
            maintainability_index: 50000,
        }),
        changes_count: changes,
        hotspot_index: index,
    }
}

#[test]
fn ranking_by_path_is_ascending() {
    let input = vec![
        entry(&["b.py"], Some(1), 0, HotspotIndex::Unset),
        entry(&["a", "z.py"], Some(1), 0, HotspotIndex::Unset),
        entry(&["a"], Some(1), 0, HotspotIndex::Unset),
        entry(&["a.py"], Some(1), 0, HotspotIndex::Unset),
    ];
    let out = sort_stats_by(input, SortBy::Path);
    let paths: Vec<Vec<String>> = out.into_iter().map(|s| s.path).collect();
    assert_eq!(paths, vec![p(&["a"]), p(&["a.py"]), p(&["a", "z.py"]), p(&["b.py"])]);
    let pair = vec![
        entry(&["a", "b"], Some(1), 0, HotspotIndex::Unset),
        entry(&["a.py"], Some(1), 0, HotspotIndex::Unset),
    ];
    let out = sort_stats_by(pair, SortBy::Path);
    assert_eq!(out[0].path, p(&["a.py"]));
    assert_eq!(out[1].path, p(&["a", "b"]));
}

#[test]
fn ranking_by_numbers_is_descending() {
    let input = vec![
        entry(&["a.py"], Some(3), 5, HotspotIndex::Finite(10)),
        entry(&["b.py"], None, 9, HotspotIndex::Unset),
        entry(&["c.py"], Some(8), 1, HotspotIndex::Infinite),
        entry(&["d.py"], Some(3), 2, HotspotIndex::Finite(700)),
    ];
    let by_loc = sort_stats_by(input.clone(), SortBy::LinesOfCode);
    let locs: Vec<Option<u64>> = by_loc.iter().map(|s| s.metrics.map(|m| m.loc)).collect();
    assert_eq!(locs, vec![Some(8), Some(3), Some(3), None]);
    let by_hotspot = sort_stats_by(input.clone(), SortBy::HotspotIndex);
    let names: Vec<String> = by_hotspot.iter().map(|s| s.path[0].clone()).collect();
    assert_eq!(names, vec!["c.py", "d.py", "a.py", "b.py"]);
    let by_changes = sort_stats_by(input.clone(), SortBy::ChangesCount);
    let changes: Vec<u64> = by_changes.iter().map(|s| s.changes_count).collect();
    assert_eq!(changes, vec![9, 5, 2, 1]);
    let by_volume = sort_stats_by(input, SortBy::HalsteadVolume);
    assert_eq!(by_volume.len(), 4);
    assert_eq!(by_volume[0].path, p(&["c.py"]));
    assert_eq!(by_volume[3].path, p(&["b.py"]));
    assert!(sort_stats_by(vec![], SortBy::MaintainabilityIndex).is_empty());
}

#[test]
fn relative_path_round_trip() {
    let root = p(&["home", "me", "repo"]);
    let child = p(&["home", "me", "repo", "a.py"]);
    let rel = relative_path(&root, &child).unwrap();
    assert_eq!(rel, p(&["a.py"]));
    assert_eq!(join(&root, &rel), child);
    assert_eq!(relative_path(&root, &root).unwrap(), Vec::<String>::new());
    assert!(matches!(relative_path(&root, &p(&["home", "you", "a.py"])), Err(HotspotError::PathOutsideRoot)));
}

#[test]
fn source_files_and_path_order() {
    assert!(is_source_file(&p(&["r", "a.py"])));
    assert!(is_source_file(&p(&["r", "x.y.py"])));
    assert!(!is_source_file(&p(&["r", ".py"])));
    assert!(!is_source_file(&p(&["r", "a.pyc"])));
    assert!(!is_source_file(&p(&[])));
    assert_eq!(compare_bytes(b"a/b", b"a.py"), 1);
    assert_eq!(compare_bytes(b"a", b"a.py"), -1);
    assert_eq!(compare_bytes(b"a.py", b"a.py"), 0);
}

#[test]
fn path_types_and_output_format() {
    assert_eq!(PathType::File.name(), "file");
    assert_eq!(PathType::Directory.name(), "directory");
    assert_eq!(Output::new(&OutputFormat::Csv).output_format(), OutputFormat::Csv);
    assert_eq!(Output::new(&OutputFormat::Markdown).output_format(), OutputFormat::Markdown);
}

#[test]
fn fixed_point_and_path_text() {
    assert_eq!(decimal(0), "0");
    assert_eq!(decimal(7), "7");
    assert_eq!(decimal(10), "10");
    assert_eq!(decimal(907), "907");
    assert_eq!(decimal(u128::MAX), u128::MAX.to_string());
    assert_eq!(fixed(12500), "12.500");
    assert_eq!(fixed(5), "0.005");
    assert_eq!(fixed(0), "0.000");
    assert_eq!(fixed(100000), "100.000");
    assert_eq!(fixed(1234567), "1234.567");
    assert_eq!(path_string(&p(&["sub", "b.py"])), "sub/b.py");
    assert_eq!(path_string(&p(&["a.py"])), "a.py");
    assert_eq!(path_string(&p(&[])), "");
}

#[test]
fn report_rows_carry_every_column() {
    let s = entry(&["sub", "b.py"], Some(10), 2, HotspotIndex::Finite(3333));
    assert_eq!(
        row(&s),
        vec!["sub/b.py", "file", "0.100", "0.000", "10", "0.000", "50.000", "2", "3.333"]
    );
    let unset = entry(&["x.py"], None, 0, HotspotIndex::Unset);
    assert_eq!(
        row(&unset),
        vec!["x.py", "file", "unset", "unset", "unset", "unset", "unset", "0", "unset"]
    );
    let inf = entry(&["y.py"], Some(1), 4, HotspotIndex::Infinite);
    assert_eq!(row(&inf)[8], "inf");
    let table = rows(&[s, unset]);
    assert_eq!(table.len(), 3);
    assert_eq!(table[0][0], "path");
    assert_eq!(table[0][8], "hotspot_index");
}

#[test]
fn csv_report() {
    let stats = vec![
        entry(&["sub", "b.py"], Some(10), 2, HotspotIndex::Finite(3333)),
        entry(&["a b,c.py"], None, 0, HotspotIndex::Unset),
    ];
    let out = Output::new(&OutputFormat::Csv).format(&stats).unwrap();
    assert_eq!(
        out,
        "path,path_type,halstead_volume,cyclomatic_complexity,loc,comments_percentage,maintainability_index,changes_count,hotspot_index\n\
         sub/b.py,file,0.100,0.000,10,0.000,50.000,2,3.333\n\
         \"a b,c.py\",file,unset,unset,unset,unset,unset,0,unset\n"
    );
}

#[test]
fn markdown_report() {
    let stats = vec![entry(&["sub", "b.py"], Some(10), 2, HotspotIndex::Finite(3333))];
    let out = Output::new(&OutputFormat::Markdown).format(&stats).unwrap();
    let lines: Vec<&str> = out.lines().collect();
    assert_eq!(lines.len(), 3);
    assert!(lines[0].starts_with("| path"));
    assert!(lines[1].starts_with("|-"));
    assert!(lines[2].contains("sub/b.py"));
    assert!(lines[2].contains("3.333"));
    assert!(lines[2].ends_with("3.333 |"));
}

#[test]
fn directory_sums_saturate_at_the_largest_value() {
    let mut h = TechDebtHotspots::new(p(&["r"]), None, p(&["r"])).unwrap();
    assert!(h.add_candidate(p(&["r", "d", "a.py"])));
    assert!(h.add_candidate(p(&["r", "d", "b.py"])));
    let big = RawMetrics {
        halstead_volume: u64::MAX,
        cyclomatic_complexity: u64::MAX,
        sloc: u64::MAX,
        cloc: 0,
        maintainability_index: u64::MAX,
    };
    h.update_metrics(&p(&["r", "d", "a.py"]), Some(big));
    h.update_metrics(&p(&["r", "d", "b.py"]), Some(big));
    let stats = h.stats();
    let d = find(&stats, &["d"]).metrics.unwrap();
    assert_eq!(d.loc, u64::MAX);
    assert_eq!(d.halstead_volume, u64::MAX);
    assert_eq!(d.maintainability_index, u64::MAX);
    assert_eq!(d.comments_percentage(), 0);
    let file = find(&stats, &["d", "a.py"]);
    assert_eq!(file.hotspot_index, HotspotIndex::Finite(0));
    assert_eq!(hotspot_index(&file.metrics, u64::MAX), HotspotIndex::Finite(100000000u128 * u64::MAX as u128 / u64::MAX as u128));
}

#[test]
fn ranking_keys_do_not_depend_on_input_order() {
    let a = vec![
        entry(&["a.py"], Some(3), 5, HotspotIndex::Finite(10)),
        entry(&["b.py"], None, 9, HotspotIndex::Unset),
        entry(&["c.py"], Some(8), 5, HotspotIndex::Infinite),
        entry(&["d", "e.py"], Some(3), 2, HotspotIndex::Finite(10)),
    ];
    let mut b = a.clone();
    b.reverse();
    let keys = |v: Vec<HotspotStats>| -> Vec<u64> {
        sort_stats_by(v, SortBy::ChangesCount).iter().map(|s| s.changes_count).collect()
    };
    assert_eq!(keys(a.clone()), keys(b.clone()));
    assert_eq!(keys(a.clone()), vec![9, 5, 5, 2]);
    let texts = |v: Vec<HotspotStats>| -> Vec<String> {
        sort_stats_by(v, SortBy::Path).iter().map(|s| path_string(&s.path)).collect()
    };
    assert_eq!(texts(a.clone()), texts(b));
    assert_eq!(texts(a), vec!["a.py", "b.py", "c.py", "d/e.py"]);
}
