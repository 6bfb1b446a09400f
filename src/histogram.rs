//! Long-tail bucketing of a (label, value) sequence for a bar chart.
use vstd::prelude::*;

verus! {

/// The mathematical value of a bar: its label and its value.
pub type Bar = (Seq<char>, u64);

/// The mathematical value of a sequence of bars.
pub open spec fn bars_view(v: Seq<(String, u64)>) -> Seq<Bar> {
    v.map_values(|e: (String, u64)| (e.0@, e.1))
}

/// Sum of the values of `s`.
pub open spec fn total(s: Seq<Bar>) -> int
    decreases s.len(),
{
    if s.len() == 0 {
        0
    } else {
        total(s.drop_last()) + s.last().1
    }
}

/// Values never increase from left to right.
pub open spec fn is_descending(s: Seq<Bar>) -> bool {
    forall|i: int, j: int| 0 <= i < j < s.len() ==> s[i].1 >= s[j].1
}

/// Places `x` before the first bar of `s` whose value is at most `x`'s.
pub open spec fn insert_descending(x: Bar, s: Seq<Bar>) -> Seq<Bar>
    decreases s.len(),
{
    if s.len() == 0 {
        seq![x]
    } else if s[0].1 <= x.1 {
        seq![x] + s
    } else {
        seq![s[0]] + insert_descending(x, s.drop_first())
    }
}

/// `s` sorted by descending value; bars of equal value keep their order in `s`.
pub open spec fn sort_descending_spec(s: Seq<Bar>) -> Seq<Bar>
    decreases s.len(),
{
    if s.len() == 0 {
        s
    } else {
        insert_descending(s[0], sort_descending_spec(s.drop_first()))
    }
}

pub proof fn lemma_total_concat(a: Seq<Bar>, b: Seq<Bar>)
    ensures
        total(a + b) == total(a) + total(b),
    decreases b.len(),
{
    if b.len() == 0 {
        assert(a + b =~= a);
    } else {
        lemma_total_concat(a, b.drop_last());
        assert((a + b).drop_last() =~= a + b.drop_last());
    }
}

pub proof fn lemma_total_nonneg(s: Seq<Bar>)
    ensures
        total(s) >= 0,
    decreases s.len(),
{
    if s.len() > 0 {
        lemma_total_nonneg(s.drop_last());
    }
}

proof fn lemma_total_cons(x: Bar, s: Seq<Bar>)
    ensures
        total(seq![x] + s) == x.1 + total(s),
{
    lemma_total_concat(seq![x], s);
    assert(seq![x].drop_last() =~= Seq::<Bar>::empty());
    assert(seq![x].last() == x);
    assert(total(seq![x]) == total(seq![x].drop_last()) + x.1);
}

proof fn lemma_insert_descending_at(x: Bar, s: Seq<Bar>, p: int)
    requires
        0 <= p <= s.len(),
        forall|j: int| 0 <= j < p ==> s[j].1 > x.1,
        p < s.len() ==> s[p].1 <= x.1,
    ensures
        insert_descending(x, s) == s.take(p) + seq![x] + s.skip(p),
    decreases s.len(),
{
    if s.len() == 0 {
        assert(s.take(p) + seq![x] + s.skip(p) =~= seq![x]);
    } else if p == 0 {
        assert(s.take(p) + seq![x] + s.skip(p) =~= seq![x] + s);
    } else {
        let t = s.drop_first();
        lemma_insert_descending_at(x, t, p - 1);
        assert(s.take(p) + seq![x] + s.skip(p) =~= seq![s[0]] + (t.take(p - 1) + seq![x] + t.skip(
            p - 1,
        )));
    }
}

proof fn lemma_insert_descending_total(x: Bar, s: Seq<Bar>)
    ensures
        total(insert_descending(x, s)) == x.1 + total(s),
    decreases s.len(),
{
    if s.len() == 0 {
        lemma_total_cons(x, s);
    } else if s[0].1 <= x.1 {
        lemma_total_cons(x, s);
    } else {
        lemma_insert_descending_total(x, s.drop_first());
        lemma_total_cons(s[0], insert_descending(x, s.drop_first()));
        lemma_total_cons(s[0], s.drop_first());
        assert(seq![s[0]] + s.drop_first() =~= s);
    }
}

/// Sorting keeps the sum of the values.
pub proof fn lemma_sort_total(s: Seq<Bar>)
    ensures
        total(sort_descending_spec(s)) == total(s),
    decreases s.len(),
{
    if s.len() > 0 {
        lemma_sort_total(s.drop_first());
        lemma_insert_descending_total(s[0], sort_descending_spec(s.drop_first()));
        lemma_total_cons(s[0], s.drop_first());
        assert(seq![s[0]] + s.drop_first() =~= s);
    }
}

proof fn lemma_insert_descending_sorted(x: Bar, s: Seq<Bar>)
    requires
        is_descending(s),
    ensures
        is_descending(insert_descending(x, s)),
        insert_descending(x, s).len() == s.len() + 1,
        forall|b: Bar| insert_descending(x, s).contains(b) ==> (b == x || s.contains(b)),
    decreases s.len(),
{
    if s.len() == 0 {
        assert forall|b: Bar| insert_descending(x, s).contains(b) implies b == x by {
            assert(insert_descending(x, s) =~= seq![x]);
        }
    } else if s[0].1 <= x.1 {
        let r = seq![x] + s;
        assert forall|b: Bar| r.contains(b) implies (b == x || s.contains(b)) by {
            let k = choose|k: int| 0 <= k < r.len() && r[k] == b;
            if k > 0 {
                assert(s[k - 1] == b);
            }
        }
    } else {
        let t = s.drop_first();
        lemma_insert_descending_sorted(x, t);
        let it = insert_descending(x, t);
        let r = seq![s[0]] + it;
        assert forall|j: int| 0 <= j < it.len() implies it[j].1 <= s[0].1 by {
            assert(it.contains(it[j]));
            if it[j] != x {
                assert(t.contains(it[j]));
                let k = choose|k: int| 0 <= k < t.len() && t[k] == it[j];
                assert(s[k + 1] == t[k]);
                assert(s[0].1 >= s[k + 1].1);
            }
        }
        assert forall|b: Bar| r.contains(b) implies (b == x || s.contains(b)) by {
            let k = choose|k: int| 0 <= k < r.len() && r[k] == b;
            if k > 0 {
                assert(it[k - 1] == b);
                assert(it.contains(b));
                if b != x {
                    assert(t.contains(b));
                    let m = choose|m: int| 0 <= m < t.len() && t[m] == b;
                    assert(s[m + 1] == b);
                }
            } else {
                assert(s[0] == b);
            }
        }
    }
}

/// The sorted sequence is descending and has as many bars as the input.
pub proof fn lemma_sort_sorted(s: Seq<Bar>)
    ensures
        is_descending(sort_descending_spec(s)),
        sort_descending_spec(s).len() == s.len(),
    decreases s.len(),
{
    if s.len() > 0 {
        lemma_sort_sorted(s.drop_first());
        lemma_insert_descending_sorted(s[0], sort_descending_spec(s.drop_first()));
    }
}

/// Sorting a descending sequence leaves it as it is.
pub proof fn lemma_sort_of_descending(s: Seq<Bar>)
    requires
        is_descending(s),
    ensures
        sort_descending_spec(s) == s,
    decreases s.len(),
{
    if s.len() > 0 {
        let t = s.drop_first();
        lemma_sort_of_descending(t);
        lemma_insert_descending_at(s[0], t, 0);
        assert(t.take(0) + seq![s[0]] + t.skip(0) =~= s);
    }
}

/// Sorts `v` by descending value; bars of equal value keep their relative order.
pub fn sort_descending(v: Vec<(String, u64)>) -> (r: Vec<(String, u64)>)
    ensures
        bars_view(r@) == sort_descending_spec(bars_view(v@)),
{
    let mut r: Vec<(String, u64)> = Vec::new();
    let mut i: usize = v.len();
    proof {
        assert(bars_view(v@).skip(i as int) =~= Seq::<Bar>::empty());
    }
    while i > 0
        invariant
            i <= v.len(),
            bars_view(r@) == sort_descending_spec(bars_view(v@).skip(i as int)),
            r@.len() == v@.len() - i,
        decreases i,
    {
        i = i - 1;
        let x = (v[i].0.clone(), v[i].1);
        let ghost xv: Bar = (x.0@, x.1);
        let ghost before = bars_view(r@);
        proof {
            let s = bars_view(v@).skip(i as int);
            assert(s.drop_first() =~= bars_view(v@).skip(i + 1));
            assert(s[0] == xv);
            lemma_sort_sorted(s.drop_first());
        }
        let mut p: usize = 0;
        while p < r.len() && r[p].1 > x.1
            invariant
                p <= r@.len(),
                bars_view(r@) == before,
                xv == (x.0@, x.1),
                r@.len() == v@.len() - i - 1,
                forall|j: int| 0 <= j < p ==> before[j].1 > xv.1,
            decreases r@.len() - p,
        {
            assert(before[p as int].1 == r@[p as int].1);
            p = p + 1;
        }
        proof {
            lemma_insert_descending_at(xv, before, p as int);
        }
        r.insert(p, x);
        proof {
            assert(bars_view(r@) =~= before.take(p as int) + seq![xv] + before.skip(p as int));
        }
    }
    proof {
        assert(bars_view(v@).skip(0) =~= bars_view(v@));
    }
    r
}

/// The label of the bar that collects the long tail.
pub open spec fn others_label() -> Seq<char> {
    seq!['O', 't', 'h', 'e', 'r', 's']
}

/// The relative cutoff of a descending sequence: its largest value divided by
/// `threshold`; 0 when the sequence is empty or `threshold` is 0.
pub open spec fn cutoff(sorted: Seq<Bar>, threshold: int) -> int {
    if sorted.len() == 0 || threshold == 0 {
        0
    } else {
        sorted[0].1 as int / threshold
    }
}

/// Length of the longest prefix of `s` whose values are all at least `c`.
pub open spec fn prefix_at_least(s: Seq<Bar>, c: int) -> int
    decreases s.len(),
{
    if s.len() == 0 {
        0
    } else if s[0].1 >= c {
        1 + prefix_at_least(s.drop_first(), c)
    } else {
        0
    }
}

/// Index of the first bar of `s` labelled `label`, or `s.len()` if there is none.
pub open spec fn label_index(s: Seq<Bar>, label: Seq<char>) -> int
    decreases s.len(),
{
    if s.len() == 0 {
        0
    } else if s[0].0 == label {
        0
    } else {
        1 + label_index(s.drop_first(), label)
    }
}

/// Long-tail bucketing of `s` with the given threshold.
///
/// The bars are sorted by descending value. Those below the cutoff (the small
/// ones, a suffix of the sorted sequence) are removed and their values summed:
/// the sum is added to the first bar labelled "Others" among the remaining ones,
/// or becomes a new "Others" bar, and the result is sorted again. Without small
/// bars the sorted sequence is the result.
pub open spec fn bucketed(s: Seq<Bar>, threshold: int) -> Seq<Bar> {
    let sorted = sort_descending_spec(s);
    let split = prefix_at_least(sorted, cutoff(sorted, threshold));
    let big = sorted.take(split);
    let small = sorted.skip(split);
    if small.len() == 0 {
        sorted
    } else {
        let k = label_index(big, others_label());
        if k < big.len() {
            sort_descending_spec(big.update(k, (big[k].0, (big[k].1 + total(small)) as u64)))
        } else {
            sort_descending_spec(seq![(others_label(), total(small) as u64)] + big)
        }
    }
}

proof fn lemma_total_at_least_bar(s: Seq<Bar>, k: int)
    requires
        0 <= k < s.len(),
    ensures
        total(s) >= s[k].1,
{
    assert(s =~= s.take(k) + seq![s[k]] + s.skip(k + 1));
    lemma_total_concat(s.take(k) + seq![s[k]], s.skip(k + 1));
    lemma_total_concat(s.take(k), seq![s[k]]);
    lemma_total_cons(s[k], Seq::<Bar>::empty());
    assert(seq![s[k]] + Seq::<Bar>::empty() =~= seq![s[k]]);
    lemma_total_nonneg(s.take(k));
    lemma_total_nonneg(s.skip(k + 1));
    lemma_total_nonneg(Seq::<Bar>::empty());
}

proof fn lemma_prefix_at_least(s: Seq<Bar>, c: int, p: int)
    requires
        0 <= p <= s.len(),
        forall|j: int| 0 <= j < p ==> s[j].1 >= c,
        p < s.len() ==> s[p].1 < c,
    ensures
        prefix_at_least(s, c) == p,
    decreases s.len(),
{
    if s.len() > 0 && p > 0 {
        lemma_prefix_at_least(s.drop_first(), c, p - 1);
    }
}

proof fn lemma_label_index(s: Seq<Bar>, label: Seq<char>, p: int)
    requires
        0 <= p <= s.len(),
        forall|j: int| 0 <= j < p ==> s[j].0 != label,
        p < s.len() ==> s[p].0 == label,
    ensures
        label_index(s, label) == p,
    decreases s.len(),
{
    if s.len() > 0 && p > 0 {
        lemma_label_index(s.drop_first(), label, p - 1);
    }
}

proof fn lemma_total_update(s: Seq<Bar>, k: int, b: Bar)
    requires
        0 <= k < s.len(),
    ensures
        total(s.update(k, b)) == total(s) - s[k].1 + b.1,
{
    let u = s.update(k, b);
    assert(s =~= s.take(k) + seq![s[k]] + s.skip(k + 1));
    assert(u =~= s.take(k) + seq![b] + s.skip(k + 1));
    lemma_total_concat(s.take(k) + seq![s[k]], s.skip(k + 1));
    lemma_total_concat(s.take(k), seq![s[k]]);
    lemma_total_concat(s.take(k) + seq![b], s.skip(k + 1));
    lemma_total_concat(s.take(k), seq![b]);
    lemma_total_cons(s[k], Seq::<Bar>::empty());
    lemma_total_cons(b, Seq::<Bar>::empty());
    assert(seq![s[k]] + Seq::<Bar>::empty() =~= seq![s[k]]);
    assert(seq![b] + Seq::<Bar>::empty() =~= seq![b]);
}

/// Bucketing loses no value and counts none twice: the values of the result
/// sum to the values of the input.
pub proof fn bucketing_preserves_total(s: Seq<Bar>, threshold: int)
    requires
        threshold >= 0,
        total(s) <= u64::MAX,
    ensures
        total(bucketed(s, threshold)) == total(s),
{
    let sorted = sort_descending_spec(s);
    lemma_sort_total(s);
    lemma_sort_sorted(s);
    let split = prefix_at_least(sorted, cutoff(sorted, threshold));
    lemma_prefix_at_least_bounds(sorted, cutoff(sorted, threshold));
    let big = sorted.take(split);
    let small = sorted.skip(split);
    assert(sorted =~= big + small);
    lemma_total_concat(big, small);
    lemma_total_nonneg(big);
    lemma_total_nonneg(small);
    if small.len() > 0 {
        let k = label_index(big, others_label());
        lemma_label_index_bounds(big, others_label());
        if k < big.len() {
            lemma_total_at_least_bar(big, k);
            let u = big.update(k, (big[k].0, (big[k].1 + total(small)) as u64));
            lemma_total_update(big, k, (big[k].0, (big[k].1 + total(small)) as u64));
            lemma_sort_total(u);
        } else {
            let c = seq![(others_label(), total(small) as u64)] + big;
            lemma_total_cons((others_label(), total(small) as u64), big);
            lemma_sort_total(c);
        }
    }
}

proof fn lemma_prefix_at_least_bounds(s: Seq<Bar>, c: int)
    ensures
        0 <= prefix_at_least(s, c) <= s.len(),
    decreases s.len(),
{
    if s.len() > 0 {
        lemma_prefix_at_least_bounds(s.drop_first(), c);
    }
}

proof fn lemma_label_index_bounds(s: Seq<Bar>, label: Seq<char>)
    ensures
        0 <= label_index(s, label) <= s.len(),
    decreases s.len(),
{
    if s.len() > 0 {
        lemma_label_index_bounds(s.drop_first(), label);
    }
}

/// The bars that bucketing hands to a chart are in descending order of value.
pub proof fn bucketed_is_descending(s: Seq<Bar>, threshold: int)
    ensures
        is_descending(bucketed(s, threshold)),
{
    let sorted = sort_descending_spec(s);
    lemma_sort_sorted(s);
    let split = prefix_at_least(sorted, cutoff(sorted, threshold));
    let big = sorted.take(split);
    let small = sorted.skip(split);
    if small.len() > 0 {
        let k = label_index(big, others_label());
        lemma_sort_sorted(big.update(k, (big[k].0, (big[k].1 + total(small)) as u64)));
        lemma_sort_sorted(seq![(others_label(), total(small) as u64)] + big);
    }
}

/// With a threshold of 0 nothing is grouped: the result is the input sorted by
/// descending value.
pub proof fn bucketing_without_threshold_only_sorts(s: Seq<Bar>)
    ensures
        bucketed(s, 0) == sort_descending_spec(s),
{
    let sorted = sort_descending_spec(s);
    lemma_sort_sorted(s);
    lemma_prefix_at_least(sorted, 0, sorted.len() as int);
}

/// Bucketing again a descending sequence that holds a single "Others" bar, and
/// no bar below the cutoff, gives back the same bars in the same order.
pub proof fn rebucketing_keeps_bars(b: Seq<Bar>, threshold: int)
    requires
        threshold >= 0,
        is_descending(b),
        exists|i: int|
            0 <= i < b.len() && b[i].0 == others_label() && b[i].1 >= cutoff(b, threshold)
                && forall|j: int| 0 <= j < b.len() && j != i ==> b[j].0 != others_label(),
        forall|j: int| 0 <= j < b.len() ==> b[j].1 >= cutoff(b, threshold),
    ensures
        bucketed(b, threshold) == b,
{
    lemma_sort_of_descending(b);
    lemma_prefix_at_least(b, cutoff(b, threshold), b.len() as int);
}

/// Groups the long tail of `entries` into one "Others" bar and returns the bars
/// sorted by descending value. A threshold of 0 groups nothing.
pub fn bucket(entries: Vec<(String, u64)>, group_threshold: usize) -> (r: Vec<(String, u64)>)
    requires
        total(bars_view(entries@)) <= u64::MAX,
    ensures
        bars_view(r@) == bucketed(bars_view(entries@), group_threshold as int),
        is_descending(bars_view(r@)),
{
    proof {
        bucketed_is_descending(bars_view(entries@), group_threshold as int);
    }
    let ghost s = bars_view(entries@);
    let sorted = sort_descending(entries);
    let ghost sv = bars_view(sorted@);
    proof {
        lemma_sort_total(s);
        lemma_sort_sorted(s);
    }
    let n = sorted.len();
    let cut: u64 = if n == 0 || group_threshold == 0 {
        0
    } else {
        sorted[0].1 / (group_threshold as u64)
    };
    assert(cut as int == cutoff(sv, group_threshold as int));
    let mut split: usize = 0;
    while split < n && sorted[split].1 >= cut
        invariant
            split <= n,
            n == sorted@.len(),
            sv == bars_view(sorted@),
            forall|j: int| 0 <= j < split ==> sv[j].1 >= cut,
        decreases n - split,
    {
        assert(sv[split as int].1 == sorted@[split as int].1);
        split = split + 1;
    }
    proof {
        if split < n {
            assert(sv[split as int].1 == sorted@[split as int].1);
        }
        lemma_prefix_at_least(sv, cut as int, split as int);
    }
    if split == n {
        assert(sv.skip(split as int).len() == 0);
        return sorted;
    }
    let mut others: u64 = 0;
    let mut j: usize = split;
    proof {
        assert(sv.subrange(split as int, split as int) =~= Seq::<Bar>::empty());
    }
    while j < n
        invariant
            split <= j <= n,
            n == sorted@.len(),
            sv == bars_view(sorted@),
            total(sv) <= u64::MAX,
            others as int == total(sv.subrange(split as int, j as int)),
        decreases n - j,
    {
        proof {
            let next = sv.subrange(split as int, j + 1);
            assert(next.drop_last() =~= sv.subrange(split as int, j as int));
            assert(next.last() == sv[j as int]);
            assert(sv =~= sv.subrange(0, split as int) + next + sv.subrange(j + 1, n as int));
            lemma_total_concat(sv.subrange(0, split as int), next);
            lemma_total_concat(sv.subrange(0, split as int) + next, sv.subrange(j + 1, n as int));
            lemma_total_nonneg(sv.subrange(0, split as int));
            lemma_total_nonneg(sv.subrange(j + 1, n as int));
        }
        others = others + sorted[j].1;
        j = j + 1;
    }
    let ghost small = sv.skip(split as int);
    proof {
        assert(sv.subrange(split as int, n as int) =~= small);
        assert(sv =~= sv.take(split as int) + small);
        lemma_total_concat(sv.take(split as int), small);
        lemma_total_nonneg(sv.take(split as int));
    }
    let mut big: Vec<(String, u64)> = Vec::new();
    let mut i: usize = 0;
    while i < split
        invariant
            i <= split < n,
            n == sorted@.len(),
            sv == bars_view(sorted@),
            bars_view(big@) == sv.take(i as int),
        decreases split - i,
    {
        let c = sorted[i].0.clone();
        assert(sv[i as int] == (sorted@[i as int].0@, sorted@[i as int].1));
        let ghost prev = big@;
        big.push((c, sorted[i].1));
        assert(big@ == prev.push((c, sorted@[i as int].1)));
        assert(bars_view(big@) =~= bars_view(prev).push(sv[i as int]));
        assert(sv.take(i + 1) =~= sv.take(i as int).push(sv[i as int]));
        i = i + 1;
    }
    let ghost bv = sv.take(split as int);
    let label = String::from_str("Others");
    proof {
        reveal_strlit("Others");
        assert(label@ =~= others_label());
    }
    let mut k: usize = 0;
    while k < big.len() && big[k].0 != label
        invariant
            k <= big@.len(),
            bars_view(big@) == bv,
            label@ == others_label(),
            forall|m: int| 0 <= m < k ==> bv[m].0 != others_label(),
        decreases big@.len() - k,
    {
        assert(bv[k as int].0 == big@[k as int].0@);
        k = k + 1;
    }
    proof {
        if k < big@.len() {
            assert(bv[k as int].0 == big@[k as int].0@);
        }
        lemma_label_index(bv, others_label(), k as int);
        lemma_total_concat(bv, small);
        lemma_total_nonneg(small);
        if k < big@.len() {
            lemma_total_at_least_bar(bv, k as int);
        }
    }
    if k < big.len() {
        assert(bv[k as int].1 == big@[k as int].1);
        let kept = big[k].0.clone();
        let value = big[k].1 + others;
        big[k] = (kept, value);
        assert(bars_view(big@) =~= bv.update(k as int, (bv[k as int].0, (bv[k as int].1 + total(small)) as u64)));
    } else {
        big.insert(0, (label, others));
        assert(bars_view(big@) =~= seq![(others_label(), total(small) as u64)] + bv);
    }
    sort_descending(big)
}

} // verus!
