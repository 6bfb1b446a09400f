//! Selection of aggregate entries by coarse category and by a list of hidden names.
use vstd::prelude::*;
use crate::aggregate::{PairView, entries_map, pairs_view};
use crate::language::{KeyView, LanguageIdentity, LanguageType, key_view};
use crate::stats::{LanguageStats, StatsView};

verus! {

/// The mathematical value of a list of names.
pub open spec fn names_view(v: Seq<String>) -> Seq<Seq<char>> {
    v.map_values(|s: String| s@)
}

/// Whether an entry with key `k` is kept. A classified language is kept when no
/// category is selected or its category is selected, and its name is not
/// hidden; an unclassified entry is kept exactly when `keep_unclassified` holds.
pub open spec fn retained(
    k: KeyView,
    allowed: Seq<LanguageType>,
    hidden: Seq<Seq<char>>,
    keep_unclassified: bool,
) -> bool {
    match k {
        Some(id) => (allowed.len() == 0 || allowed.contains(id.1)) && !hidden.contains(id.0),
        None => keep_unclassified,
    }
}

/// The entries of `s` that are kept, in their order.
pub open spec fn kept(
    s: Seq<PairView>,
    allowed: Seq<LanguageType>,
    hidden: Seq<Seq<char>>,
    keep_unclassified: bool,
) -> Seq<PairView>
    decreases s.len(),
{
    if s.len() == 0 {
        s
    } else if retained(s.last().0, allowed, hidden, keep_unclassified) {
        kept(s.drop_last(), allowed, hidden, keep_unclassified).push(s.last())
    } else {
        kept(s.drop_last(), allowed, hidden, keep_unclassified)
    }
}

/// Filtering entries restricts the map they stand for to the kept keys.
pub proof fn lemma_kept_map(
    s: Seq<PairView>,
    allowed: Seq<LanguageType>,
    hidden: Seq<Seq<char>>,
    keep_unclassified: bool,
)
    ensures
        entries_map(kept(s, allowed, hidden, keep_unclassified)) == entries_map(s).restrict(
            Set::new(|k: KeyView| retained(k, allowed, hidden, keep_unclassified)),
        ),
    decreases s.len(),
{
    let keys = Set::new(|k: KeyView| retained(k, allowed, hidden, keep_unclassified));
    if s.len() == 0 {
        assert(entries_map(s).restrict(keys) =~= Map::<KeyView, StatsView>::empty());
    } else {
        lemma_kept_map(s.drop_last(), allowed, hidden, keep_unclassified);
        let t = kept(s.drop_last(), allowed, hidden, keep_unclassified);
        if retained(s.last().0, allowed, hidden, keep_unclassified) {
            assert(t.push(s.last()).drop_last() =~= t);
        }
        assert(entries_map(kept(s, allowed, hidden, keep_unclassified)) =~= entries_map(s).restrict(
            keys,
        ));
    }
}

fn contains_category(v: &Vec<LanguageType>, c: LanguageType) -> (r: bool)
    ensures
        r == v@.contains(c),
{
    let mut i: usize = 0;
    while i < v.len()
        invariant
            i <= v@.len(),
            forall|j: int| 0 <= j < i ==> v@[j] != c,
        decreases v@.len() - i,
    {
        if v[i] == c {
            return true;
        }
        i = i + 1;
    }
    false
}

fn contains_name(v: &Vec<String>, name: &String) -> (r: bool)
    ensures
        r == names_view(v@).contains(name@),
{
    let mut i: usize = 0;
    while i < v.len()
        invariant
            i <= v@.len(),
            forall|j: int| 0 <= j < i ==> names_view(v@)[j] != name@,
        decreases v@.len() - i,
    {
        if v[i] == *name {
            assert(names_view(v@)[i as int] == name@);
            return true;
        }
        i = i + 1;
    }
    false
}

/// Whether an entry with key `key` is kept (see [`retained`]).
pub fn is_retained(
    key: &Option<LanguageIdentity>,
    allowed_categories: &Vec<LanguageType>,
    hidden_names: &Vec<String>,
    keep_unclassified: bool,
) -> (r: bool)
    ensures
        r == retained(key_view(*key), allowed_categories@, names_view(hidden_names@), keep_unclassified),
{
    match key {
        Some(id) => {
            if contains_name(hidden_names, &id.name) {
                return false;
            }
            allowed_categories.len() == 0 || contains_category(allowed_categories, id.category)
        },
        None => keep_unclassified,
    }
}

/// Keeps the entries whose key is retained, in their order. The map that the
/// result stands for is that of `entries` restricted to the retained keys.
pub fn filter_languages(
    entries: Vec<(Option<LanguageIdentity>, LanguageStats)>,
    allowed_categories: &Vec<LanguageType>,
    hidden_names: &Vec<String>,
    keep_unclassified: bool,
) -> (r: Vec<(Option<LanguageIdentity>, LanguageStats)>)
    ensures
        pairs_view(r@) == kept(
            pairs_view(entries@),
            allowed_categories@,
            names_view(hidden_names@),
            keep_unclassified,
        ),
        entries_map(pairs_view(r@)) == entries_map(pairs_view(entries@)).restrict(
            Set::new(
                |k: KeyView|
                    retained(k, allowed_categories@, names_view(hidden_names@), keep_unclassified),
            ),
        ),
{
    let ghost all = pairs_view(entries@);
    let ghost orig = entries@;
    let ghost hidden = names_view(hidden_names@);
    let n: usize = entries.len();
    let mut rest = entries;
    let mut r: Vec<(Option<LanguageIdentity>, LanguageStats)> = Vec::new();
    let mut i: usize = 0;
    proof {
        assert(all.take(0) =~= Seq::<PairView>::empty());
        assert(orig.skip(0) =~= orig);
        assert(pairs_view(r@) =~= Seq::<PairView>::empty());
    }
    while rest.len() > 0
        invariant
            n == orig.len(),
            orig == entries@,
            all == pairs_view(orig),
            hidden == names_view(hidden_names@),
            i + rest@.len() == n,
            rest@ == orig.skip(i as int),
            pairs_view(r@) == kept(all.take(i as int), allowed_categories@, hidden, keep_unclassified),
        decreases rest@.len(),
    {
        let (key, stats) = rest.remove(0);
        proof {
            assert(all[i as int] == (key_view(key), stats@));
            assert(all.take(i + 1).drop_last() =~= all.take(i as int));
            assert(rest@ =~= orig.skip(i + 1));
            assert(all.take(i + 1).last() == all[i as int]);
        }
        let keep = is_retained(&key, allowed_categories, hidden_names, keep_unclassified);
        if keep {
            let ghost prev = r@;
            r.push((key, stats));
            assert(pairs_view(r@) =~= pairs_view(prev).push(all[i as int]));
        }
        i = i + 1;
    }
    proof {
        assert(all.take(i as int) =~= all);
        lemma_kept_map(all, allowed_categories@, hidden, keep_unclassified);
    }
    r
}

} // verus!
