//! Per-file change records of a commit, and what is written for each before it
//! is classified.
use vstd::prelude::*;
use crate::language::{KeyView, LanguageIdentity, key_view, language_named, resolved_key};
use crate::stats::LanguageStats;

verus! {

/// One changed file of a commit.
pub struct FileChangeRecord {
    /// The file's path in the repository.
    pub path: String,
    pub additions: u64,
    pub deletions: u64,
    pub changes: u64,
    /// Where the file's content can be retrieved, if anywhere.
    pub content_locator: Option<String>,
}

/// The characters after the last '/' of `p` (all of `p` when it has none).
pub open spec fn last_segment(p: Seq<char>) -> Seq<char>
    decreases p.len(),
{
    if p.len() == 0 {
        p
    } else if p.last() == '/' {
        Seq::empty()
    } else {
        last_segment(p.drop_last()).push(p.last())
    }
}

/// The name under which a file of path `p` is written: its last segment, unless
/// that is empty, "." or "..".
pub open spec fn file_name_of(p: Seq<char>) -> Option<Seq<char>> {
    let s = last_segment(p);
    if s.len() == 0 || s == seq!['.'] || s == seq!['.', '.'] {
        None
    } else {
        Some(s)
    }
}

proof fn lemma_last_segment(p: Seq<char>, start: int)
    requires
        0 <= start <= p.len(),
        forall|j: int| start <= j < p.len() ==> p[j] != '/',
        start > 0 ==> p[start - 1] == '/',
    ensures
        last_segment(p) == p.subrange(start, p.len() as int),
    decreases p.len(),
{
    if p.len() == 0 {
        assert(p.subrange(start, 0) =~= p);
    } else if start == p.len() {
        assert(p.subrange(start, p.len() as int) =~= Seq::<char>::empty());
    } else {
        lemma_last_segment(p.drop_last(), start);
        assert(p.subrange(start, p.len() as int) =~= p.drop_last().subrange(
            start,
            p.len() - 1,
        ).push(p.last()));
    }
}

impl FileChangeRecord {
    /// The record's line counts, each field as reported.
    pub fn stats(&self) -> (r: LanguageStats)
        ensures
            r.additions == self.additions,
            r.deletions == self.deletions,
            r.changes == self.changes,
    {
        LanguageStats { additions: self.additions, deletions: self.deletions, changes: self.changes }
    }

    /// What is written for the file: its content locator, or nothing when it
    /// has none.
    pub fn content(&self) -> (r: String)
        ensures
            r@ == match self.content_locator {
                Some(l) => l@,
                None => Seq::<char>::empty(),
            },
    {
        match &self.content_locator {
            Some(l) => l.clone(),
            None => String::new(),
        }
    }

    /// The name under which the file is written (see [`file_name_of`]).
    pub fn file_name(&self) -> (r: Option<String>)
        ensures
            match file_name_of(self.path@) {
                Some(n) => r matches Some(s) && s@ == n,
                None => r.is_none(),
            },
    {
        let p = self.path.as_str();
        let n = p.unicode_len();
        let mut start: usize = n;
        while start > 0 && p.get_char(start - 1) != '/'
            invariant
                start <= n,
                n == p@.len(),
                forall|j: int| start <= j < n ==> p@[j] != '/',
            decreases start,
        {
            start = start - 1;
        }
        proof {
            lemma_last_segment(p@, start as int);
        }
        let seg = p.substring_char(start, n);
        let len = n - start;
        if len == 0 {
            return None;
        }
        let dot = seg.get_char(0) == '.';
        if dot && (len == 1 || (len == 2 && seg.get_char(1) == '.')) {
            proof {
                if len == 1 {
                    assert(seg@ =~= seq!['.']);
                } else {
                    assert(seg@ =~= seq!['.', '.']);
                }
            }
            return None;
        }
        proof {
            if len == 1 {
                assert(seg@ != seq!['.']);
            }
            assert(seg@ != seq!['.'] || seg@.len() != 1);
            if seg@ == seq!['.', '.'] {
                assert(seg@[1] == '.');
            }
        }
        Some(seg.to_string())
    }
}

/// The key of a file whose content the classifier named `detected`: that
/// language, or unclassified when nothing was detected or no language has
/// the detected name.
pub open spec fn classified_key(detected: Option<Seq<char>>) -> KeyView {
    match detected {
        Some(n) => resolved_key(n),
        None => None,
    }
}

/// The (key, statistics) pair of a changed file, given the name of the
/// language that the classifier detected in its content, if any.
pub fn classified_pair(detected: Option<String>, record: &FileChangeRecord) -> (r: (
    Option<LanguageIdentity>,
    LanguageStats,
))
    ensures
        key_view(r.0) == classified_key(
            match detected {
                Some(n) => Some(n@),
                None => None,
            },
        ),
        r.1.additions == record.additions,
        r.1.deletions == record.deletions,
        r.1.changes == record.changes,
{
    let key = match detected {
        Some(n) => language_named(n.as_str()),
        None => None,
    };
    (key, record.stats())
}

} // verus!
