//! The bars of one metric of the aggregate, ready for a chart.
use vstd::prelude::*;
use crate::aggregate::{PairView, pairs_view};
use crate::histogram::{
    Bar, bars_view, bucket, bucketed, lemma_total_concat, lemma_total_nonneg, others_label, total,
};
use crate::language::{KeyView, LanguageIdentity};
use crate::stats::{LanguageStats, StatsView};

verus! {

/// The statistic that a chart shows.
#[derive(Clone, Copy, Debug, PartialEq, Eq, Structural)]
pub enum Metric {
    Additions,
    Deletions,
    Changes,
}

/// The value of `m` in `s`.
pub open spec fn metric_value(s: StatsView, m: Metric) -> int {
    match m {
        Metric::Additions => s.0,
        Metric::Deletions => s.1,
        Metric::Changes => s.2,
    }
}

/// The label of an entry: the language's name, "Others" when unclassified.
pub open spec fn label_of(k: KeyView) -> Seq<char> {
    match k {
        Some(id) => id.0,
        None => others_label(),
    }
}

/// One bar per entry: its label and its value of `m`.
pub open spec fn bars_of(s: Seq<PairView>, m: Metric) -> Seq<Bar> {
    s.map_values(|p: PairView| (label_of(p.0), metric_value(p.1, m) as u64))
}

/// One bar per entry, in the order of `entries`: its label and its value of `metric`.
pub fn project(entries: &Vec<(Option<LanguageIdentity>, LanguageStats)>, metric: Metric) -> (r: Vec<
    (String, u64),
>)
    ensures
        bars_view(r@) == bars_of(pairs_view(entries@), metric),
{
    let ghost want = bars_of(pairs_view(entries@), metric);
    let mut r: Vec<(String, u64)> = Vec::new();
    let mut i: usize = 0;
    while i < entries.len()
        invariant
            i <= entries@.len(),
            want == bars_of(pairs_view(entries@), metric),
            bars_view(r@) == want.take(i as int),
        decreases entries@.len() - i,
    {
        let label = match &entries[i].0 {
            Some(id) => id.name.clone(),
            None => {
                let o = String::from_str("Others");
                proof {
                    reveal_strlit("Others");
                    assert(o@ =~= others_label());
                }
                o
            },
        };
        let stats = entries[i].1;
        let value = match metric {
            Metric::Additions => stats.additions,
            Metric::Deletions => stats.deletions,
            Metric::Changes => stats.changes,
        };
        let ghost prev = r@;
        r.push((label, value));
        assert(bars_view(r@) =~= bars_view(prev).push(want[i as int]));
        assert(want.take(i + 1) =~= want.take(i as int).push(want[i as int]));
        i = i + 1;
    }
    assert(want.take(i as int) =~= want);
    r
}

/// The sum of the values of `v`, or `None` when it does not fit in `u64`.
pub fn checked_total(v: &Vec<(String, u64)>) -> (r: Option<u64>)
    ensures
        r.is_some() <==> total(bars_view(v@)) <= u64::MAX,
        r matches Some(t) ==> t as int == total(bars_view(v@)),
{
    let ghost bv = bars_view(v@);
    let mut sum: u64 = 0;
    let mut i: usize = 0;
    assert(bv.take(0) =~= Seq::<Bar>::empty());
    while i < v.len()
        invariant
            i <= v@.len(),
            bv == bars_view(v@),
            sum as int == total(bv.take(i as int)),
        decreases v@.len() - i,
    {
        let x = v[i].1;
        assert(bv.take(i + 1).drop_last() =~= bv.take(i as int));
        assert(bv.take(i + 1).last().1 == x);
        if sum > u64::MAX - x {
            proof {
                assert(bv =~= bv.take(i + 1) + bv.skip(i + 1));
                lemma_total_concat(bv.take(i + 1), bv.skip(i + 1));
                lemma_total_nonneg(bv.skip(i + 1));
            }
            return None;
        }
        sum = sum + x;
        i = i + 1;
    }
    assert(bv.take(i as int) =~= bv);
    Some(sum)
}

/// The bucketed bars of `metric` (see [`bucketed`]), or `None` when the values
/// of the metric do not sum within `u64`.
pub fn metric_bars(
    entries: &Vec<(Option<LanguageIdentity>, LanguageStats)>,
    metric: Metric,
    group_threshold: usize,
) -> (r: Option<Vec<(String, u64)>>)
    ensures
        r.is_some() <==> total(bars_of(pairs_view(entries@), metric)) <= u64::MAX,
        r matches Some(v) ==> bars_view(v@) == bucketed(
            bars_of(pairs_view(entries@), metric),
            group_threshold as int,
        ),
{
    let bars = project(entries, metric);
    match checked_total(&bars) {
        Some(_) => Some(bucket(bars, group_threshold)),
        None => None,
    }
}

} // verus!
