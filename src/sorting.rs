use vstd::multiset::Multiset;
use vstd::prelude::*;

use crate::hotspot::{HotspotIndex, HotspotStats};
use vstd::utf8::encode_utf8;

use crate::formatting::{path_string, path_text};
use crate::paths::{bytes_cmp, compare_bytes, lemma_bytes_cmp, lemma_equal_bytes_equal_text};
use crate::types::{comments_percentage_of, Metrics};

verus! {

broadcast use vstd::seq_lib::group_to_multiset_ensures;

/// The key by which a report is ranked.
#[derive(Clone, Copy, Debug, PartialEq, Eq, Structural)]
pub enum SortBy {
    Path,
    MaintainabilityIndex,
    HalsteadVolume,
    CyclomaticComplexity,
    LinesOfCode,
    CommentsPercentage,
    ChangesCount,
    HotspotIndex,
}

/// Above every finite hotspot index.
pub open spec fn infinite_key() -> int {
    u128::MAX as int + 1
}

/// The numeric key of an entry: a record without metrics ranks below every
/// measured one, an infinite hotspot index above every finite one.
pub open spec fn sort_key(s: HotspotStats, by: SortBy) -> int {
    match by {
        SortBy::Path => 0,
        SortBy::ChangesCount => s.changes_count as int,
        SortBy::HotspotIndex => match s.hotspot_index {
            HotspotIndex::Unset => -1,
            HotspotIndex::Finite(v) => v as int,
            HotspotIndex::Infinite => infinite_key(),
        },
        _ => match s.metrics {
            None => -1,
            Some(m) => metric_key(m, by),
        },
    }
}

pub open spec fn metric_key(m: Metrics, by: SortBy) -> int {
    match by {
        SortBy::MaintainabilityIndex => m.maintainability_index as int,
        SortBy::HalsteadVolume => m.halstead_volume as int,
        SortBy::CyclomaticComplexity => m.cyclomatic_complexity as int,
        SortBy::LinesOfCode => m.loc as int,
        SortBy::CommentsPercentage => comments_percentage_of(m.comment_lines as int, m.loc as int),
        _ => 0,
    }
}

/// The bytes of a path written out with `/` between components.
pub open spec fn path_bytes(s: HotspotStats) -> Seq<u8> {
    encode_utf8(path_text(s.path.deep_view()))
}

/// `a` may stand before `b`: by path text ascending, by any other key
/// descending.
pub open spec fn precedes(a: HotspotStats, b: HotspotStats, by: SortBy) -> bool {
    if by == SortBy::Path {
        bytes_cmp(path_bytes(a), path_bytes(b)) <= 0
    } else {
        sort_key(a, by) >= sort_key(b, by)
    }
}

/// Every entry of `s` may stand before every later one.
pub open spec fn is_ranked(s: Seq<HotspotStats>, by: SortBy) -> bool {
    forall|i: int, j: int| 0 <= i < j < s.len() ==> precedes(#[trigger] s[i], #[trigger] s[j], by)
}

/// Ranking compares every two entries, consistently: the order is total
/// and transitive, and by path two entries tie only on equal path texts.
pub proof fn lemma_ranking_is_total_order(a: HotspotStats, b: HotspotStats, c: HotspotStats, by: SortBy)
    ensures
        precedes(a, b, by) || precedes(b, a, by),
        precedes(a, b, by) && precedes(b, c, by) ==> precedes(a, c, by),
        by == SortBy::Path && precedes(a, b, by) && precedes(b, a, by)
            ==> path_text(a.path.deep_view()) == path_text(b.path.deep_view()),
{
    lemma_bytes_cmp(path_bytes(a), path_bytes(b), path_bytes(c));
    if bytes_cmp(path_bytes(a), path_bytes(b)) == 0 {
        lemma_equal_bytes_equal_text(path_text(a.path.deep_view()), path_text(b.path.deep_view()));
    }
}

spec fn key_value(k: (u8, u128)) -> int {
    if k.0 == 0 { -1 } else if k.0 == 1 { k.1 as int } else { infinite_key() }
}

fn metric_key_of(m: &Metrics, by: SortBy) -> (r: u128)
    ensures
        r as int == metric_key(*m, by),
{
    match by {
        SortBy::MaintainabilityIndex => m.maintainability_index as u128,
        SortBy::HalsteadVolume => m.halstead_volume as u128,
        SortBy::CyclomaticComplexity => m.cyclomatic_complexity as u128,
        SortBy::LinesOfCode => m.loc as u128,
        SortBy::CommentsPercentage => if m.loc == 0 {
            0
        } else {
            (m.comment_lines as u128 * 100000u128) / (m.loc as u128)
        },
        _ => 0,
    }
}

fn key_of(s: &HotspotStats, by: SortBy) -> (r: (u8, u128))
    ensures
        key_value(r) == sort_key(*s, by),
        r.0 <= 2,
        r.0 != 1 ==> r.1 == 0,
{
    match by {
        SortBy::Path => (1, 0),
        SortBy::ChangesCount => (1, s.changes_count as u128),
        SortBy::HotspotIndex => match s.hotspot_index {
            HotspotIndex::Unset => (0, 0),
            HotspotIndex::Finite(v) => (1, v),
            HotspotIndex::Infinite => (2, 0),
        },
        _ => match &s.metrics {
            None => (0, 0),
            Some(m) => (1, metric_key_of(m, by)),
        },
    }
}

/// Whether `a` may stand before `b` when ranking by `by`.
pub fn ranks_before(a: &HotspotStats, b: &HotspotStats, by: SortBy) -> (r: bool)
    ensures
        r == precedes(*a, *b, by),
{
    if by == SortBy::Path {
        let ta = path_string(&a.path);
        let tb = path_string(&b.path);
        compare_bytes(ta.as_str().as_bytes(), tb.as_str().as_bytes()) <= 0
    } else {
        let ka = key_of(a, by);
        let kb = key_of(b, by);
        ka.0 > kb.0 || (ka.0 == kb.0 && ka.1 >= kb.1)
    }
}

/// The entries of `stats` ordered by `sort_by`: by path text ascending
/// (byte order of the components joined by `/`), by any other key
/// descending. Ties stand in no particular order.
pub fn sort_stats_by(stats: Vec<HotspotStats>, sort_by: SortBy) -> (r: Vec<HotspotStats>)
    ensures
        r@.to_multiset() == stats@.to_multiset(),
        is_ranked(r@, sort_by),
{
    let ghost all = stats@;
    let mut input = stats;
    let mut out: Vec<HotspotStats> = Vec::new();
    while input.len() > 0
        invariant
            input@.to_multiset().add(out@.to_multiset()) == all.to_multiset(),
            is_ranked(out@, sort_by),
        decreases input.len(),
    {
        let ghost input_before = input@;
        let x = input.pop().unwrap();
        proof {
            assert(input_before =~= input@.push(x));
        }
        let mut pos: usize = 0;
        while pos < out.len() && ranks_before(&out[pos], &x, sort_by)
            invariant
                pos <= out.len(),
                forall|k: int| 0 <= k < pos ==> precedes(#[trigger] out@[k], x, sort_by),
            decreases out.len() - pos,
        {
            pos = pos + 1;
        }
        let ghost out_before = out@;
        out.insert(pos, x);
        proof {
            if pos < out_before.len() {
                lemma_ranking_is_total_order(out_before[pos as int], x, x, sort_by);
            }
            assert forall|i: int, j: int| 0 <= i < j < out@.len() implies precedes(
                #[trigger] out@[i],
                #[trigger] out@[j],
                sort_by,
            ) by {
                if j < pos {
                    assert(out@[i] == out_before[i] && out@[j] == out_before[j]);
                } else if j == pos {
                    assert(out@[i] == out_before[i]);
                } else if i < pos {
                    assert(out@[i] == out_before[i] && out@[j] == out_before[j - 1]);
                    lemma_ranking_is_total_order(out_before[i], out_before[pos as int], out_before[j - 1], sort_by);
                    lemma_ranking_is_total_order(out_before[pos as int], x, out_before[j - 1], sort_by);
                    lemma_ranking_is_total_order(x, out_before[pos as int], out_before[j - 1], sort_by);
                    lemma_ranking_is_total_order(out_before[i], x, out_before[j - 1], sort_by);
                } else if i == pos {
                    assert(out@[j] == out_before[j - 1]);
                    lemma_ranking_is_total_order(x, out_before[pos as int], out_before[j - 1], sort_by);
                    if j - 1 == pos {
                    } else {
                        assert(precedes(out_before[pos as int], out_before[j - 1], sort_by));
                    }
                } else {
                    assert(out@[i] == out_before[i - 1] && out@[j] == out_before[j - 1]);
                }
            }
            assert(out@.remove(pos as int) =~= out_before);
            assert(out@[pos as int] == x);
            assert(out@.to_multiset() =~= out_before.to_multiset().insert(x)) by {
                assert(out@.to_multiset().remove(x) == out_before.to_multiset());
                assert(out@.to_multiset().count(x) > 0);
            }
            assert(input_before.to_multiset() == input@.to_multiset().insert(x));
            assert(input@.to_multiset().add(out@.to_multiset()) =~= input_before.to_multiset().add(out_before.to_multiset()));
        }
    }
    proof {
        assert(input@.to_multiset() =~= Multiset::<HotspotStats>::empty());
    }
    out
}

/// `a` and `b` tie under the key `by`.
pub open spec fn ties(a: HotspotStats, b: HotspotStats, by: SortBy) -> bool {
    precedes(a, b, by) && precedes(b, a, by)
}

proof fn lemma_ties_chain(a: HotspotStats, b: HotspotStats, c: HotspotStats, by: SortBy)
    requires
        ties(a, b, by),
        ties(b, c, by),
    ensures
        ties(a, c, by),
{
    lemma_ranking_is_total_order(a, b, c, by);
    lemma_ranking_is_total_order(c, b, a, by);
}

/// Two rankings of the same entries by the same key agree position by
/// position up to ties: the sequence of keys (of path texts, when ranking
/// by path) is the same, whatever order the entries came in.
pub proof fn lemma_ranking_is_unique(s1: Seq<HotspotStats>, s2: Seq<HotspotStats>, by: SortBy)
    requires
        is_ranked(s1, by),
        is_ranked(s2, by),
        s1.to_multiset() == s2.to_multiset(),
    ensures
        s1.len() == s2.len(),
        forall|i: int| 0 <= i < s1.len() ==> ties(#[trigger] s1[i], s2[i], by),
        by != SortBy::Path ==> forall|i: int| 0 <= i < s1.len() ==> sort_key(#[trigger] s1[i], by) == sort_key(s2[i], by),
        by == SortBy::Path ==> forall|i: int| 0 <= i < s1.len()
            ==> path_text((#[trigger] s1[i]).path.deep_view()) == path_text(s2[i].path.deep_view()),
    decreases s1.len(),
{
    assert(s1.len() == s1.to_multiset().len());
    assert(s2.len() == s2.to_multiset().len());
    if s1.len() > 0 {
        let n = s1.len() - 1;
        let x1 = s1[n];
        let x2 = s2[n];
        assert(s1.contains(x1));
        assert(s1.to_multiset().count(x1) > 0);
        assert(s2.to_multiset().count(x1) > 0);
        assert(s2.contains(x1));
        assert(s2.contains(x2));
        assert(s2.to_multiset().count(x2) > 0);
        assert(s1.to_multiset().count(x2) > 0);
        assert(s1.contains(x2));
        let j = choose|j: int| 0 <= j < s2.len() && s2[j] == x1;
        let j1 = choose|j1: int| 0 <= j1 < s1.len() && s1[j1] == x2;
        lemma_ranking_is_total_order(x1, x1, x1, by);
        lemma_ranking_is_total_order(x2, x2, x2, by);
        assert(precedes(x2, x1, by)) by {
            if j1 < n {
                assert(precedes(s1[j1], s1[n], by));
            }
        }
        assert(precedes(x1, x2, by)) by {
            if j < n {
                assert(precedes(s2[j], s2[n], by));
            }
        }
        // Everything of s2 from j on ties with x1.
        assert forall|m: int| j <= m <= n implies ties(#[trigger] s2[m], x1, by) by {
            lemma_ranking_is_total_order(s2[m], s2[m], s2[m], by);
            if j < m {
                assert(precedes(s2[j], s2[m], by));
            }
            if m < n {
                assert(precedes(s2[m], s2[n], by));
            }
            lemma_ranking_is_total_order(s2[m], x2, x1, by);
        }
        let t1 = s1.drop_last();
        let t2 = s2.remove(j);
        assert(s1 =~= t1.push(x1));
        assert(t1.to_multiset() =~= s1.to_multiset().remove(x1)) by {
            assert(s1.to_multiset() == t1.to_multiset().insert(x1));
        }
        assert(t2.to_multiset() == s2.to_multiset().remove(x1));
        assert(is_ranked(t1, by)) by {
            assert forall|a: int, b: int| 0 <= a < b < t1.len() implies precedes(#[trigger] t1[a], #[trigger] t1[b], by) by {
                assert(precedes(s1[a], s1[b], by));
            }
        }
        assert(is_ranked(t2, by)) by {
            assert forall|a: int, b: int| 0 <= a < b < t2.len() implies precedes(#[trigger] t2[a], #[trigger] t2[b], by) by {
                let a2 = if a < j { a } else { a + 1 };
                let b2 = if b < j { b } else { b + 1 };
                assert(t2[a] == s2[a2] && t2[b] == s2[b2]);
                assert(precedes(s2[a2], s2[b2], by));
            }
        }
        lemma_ranking_is_unique(t1, t2, by);
        assert forall|i: int| 0 <= i < s1.len() implies ties(#[trigger] s1[i], s2[i], by) by {
            if i == n {
            } else {
                assert(s1[i] == t1[i]);
                assert(ties(t1[i], t2[i], by));
                if i >= j {
                    assert(t2[i] == s2[i + 1]);
                    assert(ties(s2[i + 1], x1, by));
                    assert(ties(s2[i], x1, by));
                    lemma_ties_chain(s1[i], s2[i + 1], x1, by);
                    lemma_ranking_is_total_order(s2[i], x1, x1, by);
                    lemma_ties_chain(s1[i], x1, s2[i], by);
                } else {
                    assert(t2[i] == s2[i]);
                }
            }
        }
        assert forall|i: int| 0 <= i < s1.len() implies (by == SortBy::Path ==> path_text((#[trigger] s1[i]).path.deep_view())
            == path_text(s2[i].path.deep_view())) by {
            lemma_ranking_is_total_order(s1[i], s2[i], s2[i], by);
        }
    }
}

} // verus!
