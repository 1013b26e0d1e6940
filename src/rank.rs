//! Ranking a query against the history.
use vstd::prelude::*;

use fuzzy_matcher::FuzzyMatcher;

use crate::store::{Entry, HistoryStore};
use crate::text::{chars_of, make_title, string_of, title_of};

verus! {

/// An ASCII capital letter.
pub open spec fn is_ascii_upper(c: char) -> bool {
    'A' <= c && c <= 'Z'
}

/// Whether the pattern holds an ASCII capital, which makes matching case-sensitive.
pub open spec fn has_upper(p: Seq<char>) -> bool {
    exists|i: int| 0 <= i < p.len() && is_ascii_upper(#[trigger] p[i])
}

/// Equality of two characters, ignoring ASCII case unless `case_sensitive`.
pub open spec fn chars_match(a: char, b: char, case_sensitive: bool) -> bool {
    if case_sensitive {
        a == b
    } else {
        a == b || (is_ascii_upper(a) && b as u32 == a as u32 + 32) || (is_ascii_upper(b) && a
            as u32 == b as u32 + 32)
    }
}

/// Whether the characters of `p` occur in `c` in order, not necessarily adjacent.
pub open spec fn subsequence(p: Seq<char>, c: Seq<char>, case_sensitive: bool) -> bool
    decreases c.len(),
{
    if p.len() == 0 {
        true
    } else if c.len() == 0 {
        false
    } else if chars_match(c[0], p[0], case_sensitive) {
        subsequence(p.drop_first(), c.drop_first(), case_sensitive)
    } else {
        subsequence(p, c.drop_first(), case_sensitive)
    }
}

/// Subsequence matching with smart case.
pub open spec fn smart_subsequence(p: Seq<char>, c: Seq<char>) -> bool {
    subsequence(p, c, has_upper(p))
}

/// The score that the skim matcher (smart case) gives `pattern` against `choice`.
pub uninterp spec fn skim_score(choice: Seq<char>, pattern: Seq<char>) -> Option<i64>;

/// Relies on fuzzy_matcher's `SkimMatcherV2::fuzzy_match` with smart case: the
/// score depends on the two strings alone, and there is one exactly where the
/// pattern is a subsequence of the choice (its first pass, `cheap_matches`;
/// with no element limit every later step returns a score).
#[verifier::external_body]
fn fuzzy_score(choice: &str, pattern: &str) -> (r: Option<i64>)
    ensures
        r == skim_score(choice@, pattern@),
        r is Some <==> smart_subsequence(pattern@, choice@),
{
    fuzzy_matcher::skim::SkimMatcherV2::default().smart_case().fuzzy_match(choice, pattern)
}

/// Index `i` has a positive score.
pub open spec fn qualifies(s: Seq<Option<i64>>, i: int) -> bool {
    0 <= i < s.len() && s[i] is Some && s[i]->0 > 0
}

/// Index `i` ranks before index `j`: a higher score, or an equal score and an
/// earlier (more recent) position.
pub open spec fn ahead(s: Seq<Option<i64>>, i: int, j: int) -> bool {
    s[i]->0 > s[j]->0 || (s[i]->0 == s[j]->0 && i < j)
}

/// `ids` are the best-ranked qualifying indices of `s`, best first, as many as
/// `limit` allows.
pub open spec fn top_selection(s: Seq<Option<i64>>, limit: nat, ids: Seq<usize>) -> bool {
    &&& ids.len() <= limit
    &&& forall|k: int| 0 <= k < ids.len() ==> qualifies(s, #[trigger] ids[k] as int)
    &&& forall|k: int, l: int| 0 <= k < l < ids.len() ==> ahead(s, ids[k] as int, ids[l] as int)
    &&& forall|k: int, j: int|
        #![trigger ids[k], qualifies(s, j)]
        0 <= k < ids.len() && qualifies(s, j) && !ids.contains(j as usize) ==> ahead(
            s,
            ids[k] as int,
            j,
        )
    &&& ids.len() < limit ==> forall|j: int| qualifies(s, j) ==> ids.contains(j as usize)
}

fn qualifying(s: &Vec<Option<i64>>, i: usize) -> (r: bool)
    requires
        i < s.len(),
    ensures
        r == qualifies(s@, i as int),
{
    match s[i] {
        Some(v) => v > 0,
        None => false,
    }
}

fn is_ahead(s: &Vec<Option<i64>>, i: usize, j: usize) -> (r: bool)
    requires
        qualifies(s@, i as int),
        qualifies(s@, j as int),
    ensures
        r == ahead(s@, i as int, j as int),
{
    let a = s[i].unwrap();
    let b = s[j].unwrap();
    a > b || (a == b && i < j)
}

/// The indices of at most `limit` positive scores, highest first; equal scores
/// keep their order in `scores`.
pub fn select_top(scores: &Vec<Option<i64>>, limit: usize) -> (ids: Vec<usize>)
    ensures
        top_selection(scores@, limit as nat, ids@),
{
    let n = scores.len();
    let mut ids: Vec<usize> = Vec::new();
    let mut done = false;
    while !done && ids.len() < limit
        invariant
            n == scores.len(),
            ids.len() <= limit,
            forall|k: int| 0 <= k < ids.len() ==> qualifies(scores@, #[trigger] ids@[k] as int),
            forall|k: int, l: int|
                0 <= k < l < ids.len() ==> ahead(scores@, ids@[k] as int, ids@[l] as int),
            forall|k: int, j: int|
                #![trigger ids@[k], qualifies(scores@, j)]
                0 <= k < ids.len() && qualifies(scores@, j) && !ids@.contains(j as usize)
                    ==> ahead(scores@, ids@[k] as int, j),
            done ==> forall|j: int| qualifies(scores@, j) ==> ids@.contains(j as usize),
        decreases limit - ids.len(), if done { 0int } else { 1int },
    {
        let mut best: Option<usize> = None;
        let mut j: usize = 0;
        while j < n
            invariant
                n == scores.len(),
                j <= n,
                forall|k: int| 0 <= k < ids.len() ==> qualifies(scores@, #[trigger] ids@[k] as int),
                forall|k: int, l: int|
                    0 <= k < l < ids.len() ==> ahead(scores@, ids@[k] as int, ids@[l] as int),
                forall|k: int, j: int|
                    #![trigger ids@[k], qualifies(scores@, j)]
                    0 <= k < ids.len() && qualifies(scores@, j) && !ids@.contains(j as usize)
                        ==> ahead(scores@, ids@[k] as int, j),
                best is Some ==> {
                    let b = best->0 as int;
                    &&& b < j
                    &&& qualifies(scores@, b)
                    &&& !ids@.contains(b as usize)
                },
                forall|m: int|
                    0 <= m < j && qualifies(scores@, m) && !ids@.contains(m as usize) ==> best
                        is Some && (m == best->0 || ahead(scores@, best->0 as int, m)),
            decreases n - j,
        {
            if qualifying(scores, j) {
                let fresh = ids.len() == 0 || is_ahead(scores, ids[ids.len() - 1], j);
                proof {
                    if ids.len() > 0 && !fresh && !ids@.contains(j) {
                        assert(ahead(scores@, ids@[ids.len() - 1] as int, j as int));
                    }
                }
                if fresh {
                    proof {
                        if ids@.contains(j) {
                            let k = choose|k: int| 0 <= k < ids.len() && ids@[k] == j;
                            if k < ids.len() - 1 {
                                assert(ahead(scores@, ids@[k] as int, ids@[ids.len() - 1] as int));
                            }
                        }
                    }
                    match best {
                        None => {
                            best = Some(j);
                        },
                        Some(b) => {
                            if is_ahead(scores, j, b) {
                                best = Some(j);
                            }
                        },
                    }
                }
            }
            j = j + 1;
        }
        match best {
            None => {
                done = true;
            },
            Some(b) => {
                let ghost old_ids = ids@;
                ids.push(b);
                proof {
                    assert forall|k: int, j: int|
                        #![trigger ids@[k], qualifies(scores@, j)]
                        0 <= k < ids.len() && qualifies(scores@, j) && !ids@.contains(j as usize)
                            implies ahead(scores@, ids@[k] as int, j) by {
                        assert(!old_ids.contains(j as usize)) by {
                            if old_ids.contains(j as usize) {
                                let m = choose|m: int| 0 <= m < old_ids.len() && old_ids[m] == j;
                                assert(ids@[m] == j);
                            }
                        }
                        if k < old_ids.len() {
                            assert(ids@[k] == old_ids[k]);
                        } else {
                            assert(ids@[old_ids.len() as int] == b);
                            assert(j != b);
                        }
                    }
                    assert forall|k: int, l: int|
                        0 <= k < l < ids.len() implies ahead(
                        scores@,
                        ids@[k] as int,
                        ids@[l] as int,
                    ) by {
                        if l == old_ids.len() {
                            assert(ids@[k] == old_ids[k]);
                            assert(!old_ids.contains(b));
                        }
                    }
                }
            },
        }
    }
    ids
}

/// One ranked result as the host shows it.
pub struct MatchResult {
    /// The id of the entry, to hand back on selection.
    pub id: usize,
    /// The entry's single-line title.
    pub title: String,
}

/// The ids of `r`, in order.
pub open spec fn ids_of(r: Seq<MatchResult>) -> Seq<usize> {
    r.map_values(|m: MatchResult| m.id)
}

/// The query is meant for this search: it starts with `prefix`.
pub open spec fn gated(query: Seq<char>, prefix: Seq<char>) -> bool {
    prefix.len() <= query.len() && query.take(prefix.len() as int) == prefix
}

/// What is searched for: the query without its prefix.
pub open spec fn search_term(query: Seq<char>, prefix: Seq<char>) -> Seq<char> {
    query.skip(prefix.len() as int)
}

/// The skim score of `term` against each entry, in store order.
pub open spec fn scores_of(entries: Seq<Entry>, term: Seq<char>) -> Seq<Option<i64>> {
    entries.map_values(|e: Entry| skim_score(e.content@, term))
}

/// `ids` is the answer to `query` over `entries`: nothing where the prefix does
/// not gate it in, the most recent entries where the search term is empty, and
/// otherwise the best positive scores, best first, ties in store order.
pub open spec fn ranked(
    entries: Seq<Entry>,
    query: Seq<char>,
    limit: nat,
    prefix: Seq<char>,
    ids: Seq<usize>,
) -> bool {
    if !gated(query, prefix) {
        ids.len() == 0
    } else if search_term(query, prefix).len() == 0 {
        &&& ids.len() == (if limit <= entries.len() { limit } else { entries.len() })
        &&& forall|k: int| 0 <= k < ids.len() ==> ids[k] == k
    } else {
        top_selection(scores_of(entries, search_term(query, prefix)), limit, ids)
    }
}

fn starts_with(q: &Vec<char>, p: &Vec<char>) -> (r: bool)
    ensures
        r == gated(q@, p@),
{
    if p.len() > q.len() {
        return false;
    }
    let mut i: usize = 0;
    while i < p.len()
        invariant
            p.len() <= q.len(),
            i <= p.len(),
            forall|k: int| 0 <= k < i ==> q@[k] == p@[k],
        decreases p.len() - i,
    {
        if q[i] != p[i] {
            assert(q@.take(p.len() as int)[i as int] != p@[i as int]);
            return false;
        }
        i = i + 1;
    }
    assert(q@.take(p.len() as int) =~= p@);
    true
}

/// Answers `query` over `store`: results for at most `limit` entries, each with
/// its title.
pub fn rank(query: &str, store: &HistoryStore, limit: usize, prefix: &str) -> (r: Vec<
    MatchResult,
>)
    requires
        store.wf(),
    ensures
        ranked(store@, query@, limit as nat, prefix@, ids_of(r@)),
        r.len() <= limit,
        !gated(query@, prefix@) ==> r.len() == 0,
        forall|k: int|
            0 <= k < r.len() ==> (#[trigger] r@[k]).id < store@.len() && r@[k].title@ == title_of(
                store@[r@[k].id as int].content@,
            ),
        gated(query@, prefix@) && search_term(query@, prefix@).len() > 0 ==> forall|k: int|
            0 <= k < r.len() ==> smart_subsequence(
                search_term(query@, prefix@),
                store@[(#[trigger] r@[k]).id as int].content@,
            ),
{
    let q = chars_of(query);
    let p = chars_of(prefix);
    if !starts_with(&q, &p) {
        return Vec::new();
    }
    let term = string_of(&q, p.len(), q.len());
    assert(term@ =~= search_term(query@, prefix@));
    let n = store.len();
    let mut ids: Vec<usize> = Vec::new();
    if p.len() == q.len() {
        let m = if limit <= n { limit } else { n };
        let mut i: usize = 0;
        while i < m
            invariant
                i <= m <= n,
                ids.len() == i,
                forall|k: int| 0 <= k < i ==> ids@[k] == k,
            decreases m - i,
        {
            ids.push(i);
            i = i + 1;
        }
    } else {
        let ghost all = scores_of(store@, term@);
        let mut scores: Vec<Option<i64>> = Vec::new();
        let mut i: usize = 0;
        while i < n
            invariant
                i <= n == store@.len(),
                all == scores_of(store@, term@),
                scores@ == all.take(i as int),
                forall|k: int|
                    0 <= k < i && (#[trigger] scores@[k]) is Some ==> smart_subsequence(
                        term@,
                        store@[k].content@,
                    ),
            decreases n - i,
        {
            let e = store.entry(i);
            let sc = fuzzy_score(e.content.as_str(), term.as_str());
            scores.push(sc);
            i = i + 1;
            assert(scores@ =~= all.take(i as int));
        }
        assert(scores@ =~= all);
        ids = select_top(&scores, limit);
        assert forall|k: int| 0 <= k < ids.len() implies smart_subsequence(
            term@,
            store@[#[trigger] ids@[k] as int].content@,
        ) by {
            assert(qualifies(scores@, ids@[k] as int));
            assert(scores@[ids@[k] as int] is Some);
        }
    }
    let mut r: Vec<MatchResult> = Vec::new();
    let mut k: usize = 0;
    while k < ids.len()
        invariant
            k <= ids.len(),
            n == store@.len(),
            forall|j: int| 0 <= j < ids.len() ==> #[trigger] ids@[j] < n,
            r.len() == k,
            forall|j: int|
                0 <= j < k ==> (#[trigger] r@[j]).id == ids@[j] && r@[j].title@ == title_of(
                    store@[r@[j].id as int].content@,
                ),
        decreases ids.len() - k,
    {
        let id = ids[k];
        let title = make_title(store.entry(id).content.as_str());
        r.push(MatchResult { id, title });
        k = k + 1;
    }
    assert(ids_of(r@) =~= ids@);
    r
}

proof fn lemma_top_selection_step(s: Seq<Option<i64>>, limit: nat, a: Seq<usize>, b: Seq<usize>, k: int)
    requires
        top_selection(s, limit, a),
        top_selection(s, limit, b),
        0 <= k < a.len(),
        k < b.len(),
        forall|m: int| 0 <= m < k ==> a[m] == b[m],
    ensures
        a[k] == b[k],
{
    let x = a[k];
    let y = b[k];
    assert(qualifies(s, x as int) && qualifies(s, y as int));
    if x != y {
        if ahead(s, x as int, y as int) {
            if b.contains(x) {
                let m = choose|m: int| 0 <= m < b.len() && b[m] == x;
                if m < k {
                    assert(a[m] == x);
                    assert(ahead(s, a[m] as int, a[k] as int));
                } else {
                    assert(ahead(s, b[k] as int, b[m] as int));
                }
            } else {
                assert(ahead(s, b[k] as int, x as int));
            }
        } else {
            if a.contains(y) {
                let m = choose|m: int| 0 <= m < a.len() && a[m] == y;
                if m < k {
                    assert(b[m] == y);
                    assert(ahead(s, b[m] as int, b[k] as int));
                } else {
                    assert(ahead(s, a[k] as int, a[m] as int));
                }
            } else {
                assert(ahead(s, a[k] as int, y as int));
            }
        }
    }
}

proof fn lemma_top_selection_agree(s: Seq<Option<i64>>, limit: nat, a: Seq<usize>, b: Seq<usize>, k: int)
    requires
        top_selection(s, limit, a),
        top_selection(s, limit, b),
        0 <= k <= a.len(),
        k <= b.len(),
    ensures
        forall|m: int| 0 <= m < k ==> a[m] == b[m],
    decreases k,
{
    if k > 0 {
        lemma_top_selection_agree(s, limit, a, b, k - 1);
        lemma_top_selection_step(s, limit, a, b, k - 1);
    }
}

proof fn lemma_top_selection_unique(s: Seq<Option<i64>>, limit: nat, a: Seq<usize>, b: Seq<usize>)
    requires
        top_selection(s, limit, a),
        top_selection(s, limit, b),
        a.len() <= b.len(),
    ensures
        a == b,
{
    lemma_top_selection_agree(s, limit, a, b, a.len() as int);
    if a.len() < b.len() {
        let y = b[a.len() as int];
        assert(qualifies(s, y as int));
        let m = choose|m: int| 0 <= m < a.len() && a[m] == y;
        assert(ahead(s, b[m] as int, b[a.len() as int] as int));
    }
    assert(a =~= b);
}

/// Ranking is deterministic: two answers to the same query, limit and prefix
/// over the same entries are the same sequence of ids.
pub proof fn lemma_rank_deterministic(
    entries: Seq<Entry>,
    query: Seq<char>,
    limit: nat,
    prefix: Seq<char>,
    a: Seq<usize>,
    b: Seq<usize>,
)
    requires
        ranked(entries, query, limit, prefix, a),
        ranked(entries, query, limit, prefix, b),
    ensures
        a == b,
{
    if gated(query, prefix) {
        if search_term(query, prefix).len() == 0 {
            assert(a =~= b);
        } else {
            let s = scores_of(entries, search_term(query, prefix));
            if a.len() <= b.len() {
                lemma_top_selection_unique(s, limit, a, b);
            } else {
                lemma_top_selection_unique(s, limit, b, a);
            }
        }
    } else {
        assert(a =~= b);
    }
}

/// Every id that a ranking of a store returns names an entry of that store, so
/// resolving it right after ranking finds that entry.
pub proof fn lemma_ranked_ids_resolve(
    store: HistoryStore,
    query: Seq<char>,
    limit: nat,
    prefix: Seq<char>,
    ids: Seq<usize>,
)
    requires
        store.wf(),
        ranked(store@, query, limit, prefix, ids),
    ensures
        forall|k: int|
            0 <= k < ids.len() ==> #[trigger] ids[k] < store@.len() && store@[ids[k] as int].id
                == ids[k],
{
    if gated(query, prefix) && search_term(query, prefix).len() > 0 {
        let s = scores_of(store@, search_term(query, prefix));
        assert forall|k: int| 0 <= k < ids.len() implies #[trigger] ids[k] < store@.len() by {
            assert(qualifies(s, ids[k] as int));
        }
    }
}

} // verus!
