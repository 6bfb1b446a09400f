//! Folding classified (language, statistics) pairs into one entry per language.
use vstd::prelude::*;
use crate::language::{KeyView, LanguageIdentity, key_view, language_named, resolved_key, same_key};
use crate::stats::{LanguageStats, StatsView, add_stats, stats_fit};

verus! {

/// The mathematical value of a (key, statistics) pair.
pub type PairView = (KeyView, StatsView);

/// The mathematical value of a sequence of pairs.
pub open spec fn pairs_view(v: Seq<(Option<LanguageIdentity>, LanguageStats)>) -> Seq<PairView> {
    v.map_values(|e: (Option<LanguageIdentity>, LanguageStats)| (key_view(e.0), e.1@))
}

/// Merges one pair into a map: added field-wise to the entry of its key, or
/// inserted when the key is new.
pub open spec fn merge_into(m: Map<KeyView, StatsView>, p: PairView) -> Map<KeyView, StatsView> {
    if m.contains_key(p.0) {
        m.insert(p.0, add_stats(m[p.0], p.1))
    } else {
        m.insert(p.0, p.1)
    }
}

/// The aggregate of a sequence of pairs: each pair merged in turn into an
/// initially empty map.
pub open spec fn aggregate(s: Seq<PairView>) -> Map<KeyView, StatsView>
    decreases s.len(),
{
    if s.len() == 0 {
        Map::empty()
    } else {
        merge_into(aggregate(s.drop_last()), s.last())
    }
}

/// Every statistic of the map fits in `u64` fields.
pub open spec fn map_fits(m: Map<KeyView, StatsView>) -> bool {
    forall|k: KeyView| #[trigger] m.contains_key(k) ==> stats_fit(m[k])
}

/// No two entries share a key.
pub open spec fn keys_unique(s: Seq<PairView>) -> bool {
    forall|i: int, j: int| 0 <= i < j < s.len() ==> s[i].0 != s[j].0
}

/// The map that a sequence of entries with unique keys stands for.
pub open spec fn entries_map(s: Seq<PairView>) -> Map<KeyView, StatsView>
    decreases s.len(),
{
    if s.len() == 0 {
        Map::empty()
    } else {
        entries_map(s.drop_last()).insert(s.last().0, s.last().1)
    }
}

/// All fields are non-negative.
pub open spec fn pairs_nonneg(s: Seq<PairView>) -> bool {
    forall|i: int| 0 <= i < s.len() ==> 0 <= #[trigger] s[i].1.0 && 0 <= s[i].1.1 && 0 <= s[i].1.2
}

proof fn lemma_entries_map_lookup(s: Seq<PairView>)
    requires
        keys_unique(s),
    ensures
        forall|i: int|
            0 <= i < s.len() ==> #[trigger] entries_map(s).contains_key(s[i].0) && entries_map(s)[s[i].0]
                == s[i].1,
        forall|k: KeyView|
            #[trigger] entries_map(s).contains_key(k) ==> exists|i: int| 0 <= i < s.len() && s[i].0 == k,
    decreases s.len(),
{
    if s.len() > 0 {
        let t = s.drop_last();
        lemma_entries_map_lookup(t);
        assert forall|k: KeyView| #[trigger] entries_map(s).contains_key(k) implies exists|i: int|
            0 <= i < s.len() && s[i].0 == k by {
            assert(entries_map(s) == entries_map(t).insert(s.last().0, s.last().1));
            if k != s.last().0 {
                assert(entries_map(t).contains_key(k));
                let i = choose|i: int| 0 <= i < t.len() && t[i].0 == k;
                assert(s[i].0 == k);
            } else {
                assert(s[s.len() - 1].0 == k);
            }
        }
        assert forall|i: int| 0 <= i < s.len() implies #[trigger] entries_map(s).contains_key(s[i].0)
            && entries_map(s)[s[i].0] == s[i].1 by {
            if i < s.len() - 1 {
                assert(t[i] == s[i]);
            }
        }
    }
}

proof fn lemma_entries_map_update(s: Seq<PairView>, pos: int, v: StatsView)
    requires
        keys_unique(s),
        0 <= pos < s.len(),
    ensures
        entries_map(s.update(pos, (s[pos].0, v))) == entries_map(s).insert(s[pos].0, v),
    decreases s.len(),
{
    let u = s.update(pos, (s[pos].0, v));
    let t = s.drop_last();
    if pos == s.len() - 1 {
        assert(u.drop_last() =~= t);
        assert(entries_map(u) =~= entries_map(s).insert(s[pos].0, v));
    } else {
        lemma_entries_map_update(t, pos, v);
        assert(u.drop_last() =~= t.update(pos, (t[pos].0, v)));
        assert(s.last().0 != s[pos].0);
        assert(entries_map(u) =~= entries_map(s).insert(s[pos].0, v));
    }
}

proof fn lemma_aggregate_nonneg(s: Seq<PairView>)
    requires
        pairs_nonneg(s),
    ensures
        forall|k: KeyView|
            #[trigger] aggregate(s).contains_key(k) ==> 0 <= aggregate(s)[k].0 && 0 <= aggregate(s)[k].1
                && 0 <= aggregate(s)[k].2,
    decreases s.len(),
{
    if s.len() > 0 {
        lemma_aggregate_nonneg(s.drop_last());
        assert(s.last() == s[s.len() - 1]);
        assert(0 <= s[s.len() - 1].1.0 && 0 <= s[s.len() - 1].1.1 && 0 <= s[s.len() - 1].1.2);
        let t = aggregate(s.drop_last());
        assert(aggregate(s) == merge_into(t, s.last()));
        assert forall|k: KeyView| #[trigger] aggregate(s).contains_key(k) implies 0 <= aggregate(s)[k].0
            && 0 <= aggregate(s)[k].1 && 0 <= aggregate(s)[k].2 by {
            if k != s.last().0 {
                assert(t.contains_key(k));
            } else if t.contains_key(k) {
                assert(0 <= t[k].0 && 0 <= t[k].1 && 0 <= t[k].2);
            }
        }
    }
}

/// Merging pairs into a map only adds: every key stays, and no field decreases.
proof fn lemma_aggregate_grows(s: Seq<PairView>, i: int)
    requires
        0 <= i <= s.len(),
        pairs_nonneg(s),
    ensures
        forall|k: KeyView|
            #[trigger] aggregate(s.take(i)).contains_key(k) ==> aggregate(s).contains_key(k) && aggregate(
                s.take(i),
            )[k].0 <= aggregate(s)[k].0 && aggregate(s.take(i))[k].1 <= aggregate(s)[k].1 && aggregate(
                s.take(i),
            )[k].2 <= aggregate(s)[k].2,
    decreases s.len(),
{
    if i == s.len() {
        assert(s.take(i) =~= s);
    } else {
        let t = s.drop_last();
        lemma_aggregate_grows(t, i);
        assert(t.take(i) =~= s.take(i));
        let x = s.last();
        assert(x == s[s.len() - 1]);
    }
}

/// The aggregate of a sequence is the aggregate of the sequence without its
/// `i`-th pair, with that pair merged in last.
proof fn lemma_aggregate_move_last(s: Seq<PairView>, i: int)
    requires
        0 <= i < s.len(),
    ensures
        aggregate(s) == merge_into(aggregate(s.remove(i)), s[i]),
    decreases s.len(),
{
    if i < s.len() - 1 {
        let t = s.drop_last();
        lemma_aggregate_move_last(t, i);
        assert(s.remove(i).drop_last() =~= t.remove(i));
        assert(s.remove(i).last() == s.last());
        lemma_merge_commutes(aggregate(t.remove(i)), s[i], s.last());
    } else {
        assert(s.remove(i) =~= s.drop_last());
    }
}

proof fn lemma_merge_commutes(m: Map<KeyView, StatsView>, a: PairView, b: PairView)
    ensures
        merge_into(merge_into(m, a), b) == merge_into(merge_into(m, b), a),
{
    assert(merge_into(merge_into(m, a), b) =~= merge_into(merge_into(m, b), a));
}

/// The order in which pairs arrive does not matter: two sequences holding the
/// same pairs, each as often, aggregate to the same map.
pub proof fn aggregate_ignores_order(s1: Seq<PairView>, s2: Seq<PairView>)
    requires
        s1.to_multiset() == s2.to_multiset(),
    ensures
        aggregate(s1) == aggregate(s2),
    decreases s1.len(),
{
    broadcast use vstd::seq_lib::group_to_multiset_ensures;

    s1.to_multiset_ensures();
    s2.to_multiset_ensures();
    if s1.len() > 0 {
        let x = s1.last();
        assert(s1.to_multiset().count(x) > 0) by {
            assert(s1.contains(x)) by {
                assert(s1[s1.len() - 1] == x);
            }
        }
        assert(s2.contains(x));
        let i = choose|i: int| 0 <= i < s2.len() && s2[i] == x;
        let r2 = s2.remove(i);
        let r1 = s1.drop_last();
        vstd::seq_lib::to_multiset_remove(s2, i);
        vstd::seq_lib::to_multiset_remove(s1, s1.len() - 1);
        assert(s1.remove(s1.len() - 1) =~= r1);
        aggregate_ignores_order(r1, r2);
        lemma_aggregate_move_last(s2, i);
    } else {
        assert(s2.len() == 0);
    }
}

proof fn lemma_entries_fit(v: Seq<(Option<LanguageIdentity>, LanguageStats)>)
    requires
        keys_unique(pairs_view(v)),
    ensures
        map_fits(entries_map(pairs_view(v))),
{
    let s = pairs_view(v);
    lemma_entries_map_lookup(s);
    assert forall|k: KeyView| #[trigger] entries_map(s).contains_key(k) implies stats_fit(
        entries_map(s)[k],
    ) by {
        let i = choose|i: int| 0 <= i < s.len() && s[i].0 == k;
        assert(s[i].1 == v[i].1@);
    }
}

/// The aggregate being built: one entry per distinct key.
pub struct Accumulator {
    entries: Vec<(Option<LanguageIdentity>, LanguageStats)>,
}

impl View for Accumulator {
    type V = Map<KeyView, StatsView>;

    closed spec fn view(&self) -> Map<KeyView, StatsView> {
        entries_map(pairs_view(self.entries@))
    }
}

impl Accumulator {
    /// No two entries share a key.
    pub closed spec fn wf(&self) -> bool {
        keys_unique(pairs_view(self.entries@))
    }

    /// An accumulator with no entry.
    pub fn new() -> (r: Accumulator)
        ensures
            r.wf(),
            r@ == Map::<KeyView, StatsView>::empty(),
    {
        let r = Accumulator { entries: Vec::new() };
        assert(pairs_view(r.entries@) =~= Seq::<PairView>::empty());
        r
    }

    /// Every statistic held fits in `u64` fields.
    pub proof fn lemma_fits(&self)
        requires
            self.wf(),
        ensures
            map_fits(self@),
    {
        lemma_entries_fit(self.entries@);
    }

    /// Merges one pair: its statistics are added field-wise to those of its key,
    /// or it becomes a new entry. Returns false, and changes nothing, when a sum
    /// would not fit in `u64`.
    pub fn merge(&mut self, key: Option<LanguageIdentity>, stats: LanguageStats) -> (merged: bool)
        requires
            old(self).wf(),
        ensures
            final(self).wf(),
            merged == map_fits(merge_into(old(self)@, (key_view(key), stats@))),
            merged ==> final(self)@ == merge_into(old(self)@, (key_view(key), stats@)),
            !merged ==> final(self)@ == old(self)@,
    {
        let ghost kv = key_view(key);
        let ghost pv = pairs_view(self.entries@);
        proof {
            lemma_entries_map_lookup(pv);
            lemma_entries_fit(self.entries@);
        }
        let mut pos: usize = 0;
        while pos < self.entries.len() && !same_key(&self.entries[pos].0, &key)
            invariant
                pos <= self.entries@.len(),
                pv == pairs_view(self.entries@),
                kv == key_view(key),
                forall|j: int| 0 <= j < pos ==> pv[j].0 != kv,
            decreases self.entries@.len() - pos,
        {
            assert(pv[pos as int].0 == key_view(self.entries@[pos as int].0));
            pos = pos + 1;
        }
        if pos < self.entries.len() {
            assert(pv[pos as int].0 == key_view(self.entries@[pos as int].0));
            let cur = self.entries[pos].1;
            assert(pv[pos as int].1 == cur@);
            if cur.additions > u64::MAX - stats.additions || cur.deletions > u64::MAX
                - stats.deletions || cur.changes > u64::MAX - stats.changes {
                assert(self@.contains_key(pv[pos as int].0));
                assert(merge_into(self@, (kv, stats@)).contains_key(kv));
                assert(!stats_fit(merge_into(self@, (kv, stats@))[kv]));
                return false;
            }
            let sum = cur.add(&stats);
            self.entries[pos].1 = sum;
            proof {
                lemma_entries_map_update(pv, pos as int, sum@);
                assert(pairs_view(self.entries@) =~= pv.update(pos as int, (pv[pos as int].0, sum@)));
                let m = merge_into(old(self)@, (kv, stats@));
                assert forall|k: KeyView| #[trigger] m.contains_key(k) implies stats_fit(m[k]) by {
                    if k != kv {
                        assert(old(self)@.contains_key(k));
                    }
                }
            }
            true
        } else {
            proof {
                assert(!self@.contains_key(kv)) by {
                    if self@.contains_key(kv) {
                        let i = choose|i: int| 0 <= i < pv.len() && pv[i].0 == kv;
                        assert(pv[i].0 != kv);
                    }
                }
                let m = merge_into(old(self)@, (kv, stats@));
                assert forall|k: KeyView| #[trigger] m.contains_key(k) implies stats_fit(m[k]) by {
                    if k != kv {
                        assert(old(self)@.contains_key(k));
                    }
                }
            }
            self.entries.push((key, stats));
            proof {
                let nv = pairs_view(self.entries@);
                assert(nv =~= pv.push((kv, stats@)));
                assert(nv.drop_last() =~= pv);
            }
            true
        }
    }

    /// The entries, one per distinct key, in the order in which their keys
    /// first arrived.
    pub fn into_entries(self) -> (r: Vec<(Option<LanguageIdentity>, LanguageStats)>)
        requires
            self.wf(),
        ensures
            keys_unique(pairs_view(r@)),
            entries_map(pairs_view(r@)) == self@,
    {
        self.entries
    }
}

/// Folds `pairs` into an accumulator. `None` when the statistics of some
/// language do not fit in `u64` fields.
pub fn accumulate(pairs: Vec<(Option<LanguageIdentity>, LanguageStats)>) -> (r: Option<Accumulator>)
    ensures
        r.is_some() <==> map_fits(aggregate(pairs_view(pairs@))),
        r matches Some(a) ==> a.wf() && a@ == aggregate(pairs_view(pairs@)),
{
    let ghost all = pairs_view(pairs@);
    let ghost orig = pairs@;
    let n: usize = pairs.len();
    let mut rest = pairs;
    let mut acc = Accumulator::new();
    let mut i: usize = 0;
    proof {
        assert forall|j: int| 0 <= j < all.len() implies 0 <= #[trigger] all[j].1.0 && 0 <= all[j].1.1
            && 0 <= all[j].1.2 by {
            assert(all[j].1 == orig[j].1@);
        }
        assert(all.take(0) =~= Seq::<PairView>::empty());
        assert(orig.skip(0) =~= orig);
    }
    while rest.len() > 0
        invariant
            n == orig.len(),
            orig == pairs@,
            all == pairs_view(orig),
            i + rest@.len() == n,
            pairs_nonneg(all),
            rest@ == orig.skip(i as int),
            acc.wf(),
            acc@ == aggregate(all.take(i as int)),
        decreases rest@.len(),
    {
        let (key, stats) = rest.remove(0);
        proof {
            assert(all[i as int] == (key_view(key), stats@));
            assert(all.take(i + 1).drop_last() =~= all.take(i as int));
            assert(rest@ =~= orig.skip(i + 1));
            assert(all.take(i + 1).last() == all[i as int]);
        }
        let ghost before = acc@;
        let ghost pair = (key_view(key), stats@);
        let ok = acc.merge(key, stats);
        if !ok {
            proof {
                assert(aggregate(all.take(i + 1)) == merge_into(before, pair));
                assert(!map_fits(aggregate(all.take(i + 1))));
                lemma_aggregate_grows(all, i + 1);
                let m = aggregate(all.take(i + 1));
                let k = choose|k: KeyView| m.contains_key(k) && !stats_fit(m[k]);
                lemma_aggregate_nonneg(all.take(i + 1));
                assert(m[k].0 >= 0 && m[k].1 >= 0 && m[k].2 >= 0);
                assert(aggregate(all).contains_key(k));
                assert(!stats_fit(aggregate(all)[k]));
            }
            return None;
        }
        i = i + 1;
    }
    proof {
        assert(all.take(i as int) =~= all);
        acc.lemma_fits();
    }
    Some(acc)
}

/// Resolves each cached (language name, statistics) pair to a key, in order;
/// a name that no language has becomes the unclassified key.
pub fn resolve_cached(cached: Vec<(String, LanguageStats)>) -> (r: Vec<(Option<LanguageIdentity>, LanguageStats)>)
    ensures
        r@.len() == cached@.len(),
        forall|i: int|
            0 <= i < cached@.len() ==> #[trigger] pairs_view(r@)[i] == (resolved_key(cached@[i].0@), cached@[i].1@),
{
    let ghost orig = cached@;
    let n: usize = cached.len();
    let mut rest = cached;
    let mut r: Vec<(Option<LanguageIdentity>, LanguageStats)> = Vec::new();
    let mut i: usize = 0;
    proof {
        assert(orig.skip(0) =~= orig);
    }
    while rest.len() > 0
        invariant
            n == orig.len(),
            i + rest@.len() == n,
            rest@ == orig.skip(i as int),
            r@.len() == i,
            forall|j: int| 0 <= j < i ==> #[trigger] pairs_view(r@)[j] == (resolved_key(orig[j].0@), orig[j].1@),
        decreases rest@.len(),
    {
        let (name, stats) = rest.remove(0);
        proof {
            assert(orig[i as int] == (name, stats));
            assert(rest@ =~= orig.skip(i + 1));
        }
        let key = language_named(name.as_str());
        let ghost prev = r@;
        r.push((key, stats));
        assert forall|j: int| 0 <= j < i + 1 implies #[trigger] pairs_view(r@)[j] == (resolved_key(orig[j].0@), orig[j].1@) by {
            if j < i {
                assert(r@[j] == prev[j]);
                assert(pairs_view(prev)[j] == (resolved_key(orig[j].0@), orig[j].1@));
            }
        }
        i = i + 1;
    }
    r
}

} // verus!
