//! The loaded history: most-recent-first, deduplicated by content, with dense ids.
use vstd::prelude::*;

use vstd::utf8::{decode_utf8, valid_utf8};

use crate::text::push_char;

verus! {

/// One loaded history entry.
pub struct Entry {
    /// Position in the store, counted from the most recent entry.
    pub id: usize,
    /// The clipboard payload.
    pub content: String,
    /// The backend's own identifier, used to fetch the full payload again.
    pub external_key: Option<String>,
}

/// Indices of the first occurrence of each distinct value of `s`, in order.
pub open spec fn first_indices(s: Seq<Seq<char>>) -> Seq<int>
    decreases s.len(),
{
    if s.len() == 0 {
        seq![]
    } else {
        let f = first_indices(s.drop_last());
        if s.drop_last().contains(s.last()) {
            f
        } else {
            f.push(s.len() - 1)
        }
    }
}

/// `s` with every value kept at its first occurrence only.
pub open spec fn dedup(s: Seq<Seq<char>>) -> Seq<Seq<char>> {
    first_indices(s).map_values(|i: int| s[i])
}

/// No value occurs twice in `s`.
pub open spec fn distinct(s: Seq<Seq<char>>) -> bool {
    forall|k: int, l: int| 0 <= k < l < s.len() ==> s[k] != s[l]
}

/// Each index of `first_indices(s)` is in range, they increase, and each marks
/// a value that does not occur before it.
pub proof fn lemma_first_indices(s: Seq<Seq<char>>)
    ensures
        forall|k: int|
            0 <= k < first_indices(s).len() ==> 0 <= #[trigger] first_indices(s)[k] < s.len(),
        forall|k: int, l: int|
            0 <= k < l < first_indices(s).len() ==> first_indices(s)[k] < first_indices(s)[l],
        forall|k: int|
            0 <= k < first_indices(s).len() ==> !s.take(#[trigger] first_indices(s)[k]).contains(
                s[first_indices(s)[k]],
            ),
    decreases s.len(),
{
    if s.len() > 0 {
        let p = s.drop_last();
        lemma_first_indices(p);
        let fp = first_indices(p);
        assert forall|k: int| 0 <= k < fp.len() implies s.take(#[trigger] fp[k]) == p.take(fp[k])
            && s[fp[k]] == p[fp[k]] by {
            assert(s.take(fp[k]) =~= p.take(fp[k]));
        }
        assert(s.take(s.len() - 1) =~= p);
    }
}

/// Every value of `s` is reached by `first_indices(s)` at or before its position.
pub proof fn lemma_first_indices_cover(s: Seq<Seq<char>>, j: int)
    requires
        0 <= j < s.len(),
    ensures
        exists|k: int|
            0 <= k < first_indices(s).len() && first_indices(s)[k] <= j && s[first_indices(
                s,
            )[k]] == s[j],
    decreases s.len(),
{
    let p = s.drop_last();
    let f = first_indices(s);
    let fp = first_indices(p);
    lemma_first_indices(p);
    if j < s.len() - 1 {
        lemma_first_indices_cover(p, j);
        let k = choose|k: int| 0 <= k < fp.len() && fp[k] <= j && p[fp[k]] == p[j];
        assert(f[k] == fp[k]);
        assert(0 <= k < f.len() && f[k] <= j && s[f[k]] == s[j]);
    } else if p.contains(s.last()) {
        let m = choose|m: int| 0 <= m < p.len() && p[m] == s.last();
        lemma_first_indices_cover(p, m);
        let k = choose|k: int| 0 <= k < fp.len() && fp[k] <= m && p[fp[k]] == p[m];
        assert(f[k] == fp[k]);
        assert(0 <= k < f.len() && f[k] <= j && s[f[k]] == s[j]);
    } else {
        let k = fp.len() as int;
        assert(f[k] == j);
        assert(0 <= k < f.len() && f[k] <= j && s[f[k]] == s[j]);
    }
}

/// `dedup(s)` holds each value of `s` exactly once.
pub proof fn lemma_dedup(s: Seq<Seq<char>>)
    ensures
        distinct(dedup(s)),
        forall|x: Seq<char>| dedup(s).contains(x) <==> s.contains(x),
{
    lemma_first_indices(s);
    let f = first_indices(s);
    let d = dedup(s);
    assert forall|k: int, l: int| 0 <= k < l < d.len() implies d[k] != d[l] by {
        if d[k] == d[l] {
            assert(s.take(f[l])[f[k]] == s[f[l]]);
        }
    }
    assert forall|x: Seq<char>| d.contains(x) <==> s.contains(x) by {
        if s.contains(x) {
            let j = choose|j: int| 0 <= j < s.len() && s[j] == x;
            lemma_first_indices_cover(s, j);
            let k = choose|k: int| 0 <= k < f.len() && f[k] <= j && s[f[k]] == s[j];
            assert(d[k] == x);
        }
        if d.contains(x) {
            let k = choose|k: int| 0 <= k < d.len() && d[k] == x;
            assert(s[f[k]] == x);
        }
    }
}

/// The indices of first occurrences in a prefix of `s` begin those of `s`.
proof fn lemma_first_indices_prefix(s: Seq<Seq<char>>, m: int)
    requires
        0 <= m <= s.len(),
    ensures
        first_indices(s.take(m)).len() <= first_indices(s).len(),
        first_indices(s.take(m)) == first_indices(s).take(first_indices(s.take(m)).len() as int),
    decreases s.len(),
{
    if m == s.len() {
        assert(s.take(m) =~= s);
        assert(first_indices(s).take(first_indices(s).len() as int) =~= first_indices(s));
    } else {
        let p = s.drop_last();
        assert(p.take(m) =~= s.take(m));
        lemma_first_indices_prefix(p, m);
        let f = first_indices(s);
        let fp = first_indices(p);
        let n = first_indices(s.take(m)).len() as int;
        assert(fp.take(n) =~= f.take(n));
    }
}

/// Deduplication keeps a repeated value once, where it first occurs: if the
/// value at `i` first occurs there and occurs again at `j`, the deduplicated
/// sequence holds it exactly once, at the number of distinct values before `i`.
pub proof fn lemma_dedup_keeps_first(s: Seq<Seq<char>>, i: int, j: int)
    requires
        0 <= i < j < s.len(),
        s[i] == s[j],
        !s.take(i).contains(s[i]),
    ensures
        dedup(s.take(i)).len() < dedup(s).len(),
        dedup(s)[dedup(s.take(i)).len() as int] == s[i],
        forall|q: int|
            0 <= q < dedup(s).len() && #[trigger] dedup(s)[q] == s[i] ==> q == dedup(
                s.take(i),
            ).len(),
{
    let t = s.take(i + 1);
    assert(t.drop_last() =~= s.take(i));
    assert(t.last() == s[i]);
    assert(first_indices(t) == first_indices(s.take(i)).push(i));
    lemma_first_indices_prefix(s, i + 1);
    let n = first_indices(s.take(i)).len() as int;
    assert(first_indices(t)[n] == i);
    assert(first_indices(s)[n] == i);
    lemma_dedup(s);
}

/// The contents of `es`, in order.
pub open spec fn contents_of(es: Seq<Entry>) -> Seq<Seq<char>> {
    es.map_values(|e: Entry| e.content@)
}

/// The contents of raw `(key, content)` records, in order.
pub open spec fn raw_contents(raw: Seq<(Option<String>, String)>) -> Seq<Seq<char>> {
    raw.map_values(|p: (Option<String>, String)| p.1@)
}

/// The texts of the UTF-8 payloads of a log, most recent (last) first.
pub open spec fn log_texts(raw: Seq<Seq<u8>>) -> Seq<Seq<char>>
    decreases raw.len(),
{
    if raw.len() == 0 {
        seq![]
    } else if valid_utf8(raw.last()) {
        seq![decode_utf8(raw.last())] + log_texts(raw.drop_last())
    } else {
        log_texts(raw.drop_last())
    }
}

/// Relies on `String::from_utf8`: the text that the bytes encode, and an
/// error exactly where they are not UTF-8.
#[verifier::external_body]
pub(crate) fn utf8_string(b: &Vec<u8>) -> (r: Option<String>)
    ensures
        r is Some <==> valid_utf8(b@),
        r is Some ==> r->0@ == decode_utf8(b@),
{
    String::from_utf8(b.clone()).ok()
}

/// The history of one session, read-only once loaded.
pub struct HistoryStore {
    entries: Vec<Entry>,
}

impl View for HistoryStore {
    type V = Seq<Entry>;

    closed spec fn view(&self) -> Seq<Entry> {
        self.entries@
    }
}

fn clone_key(k: &Option<String>) -> (r: Option<String>)
    ensures
        r == *k,
{
    match k {
        Some(s) => Some(s.clone()),
        None => None,
    }
}

/// Whether some entry of `es` holds `s`.
fn holds_content(es: &Vec<Entry>, s: &String) -> (r: bool)
    ensures
        r == contents_of(es@).contains(s@),
{
    let mut i: usize = 0;
    while i < es.len()
        invariant
            i <= es.len(),
            forall|k: int| 0 <= k < i ==> es@[k].content@ != s@,
        decreases es.len() - i,
    {
        if es[i].content == *s {
            assert(contents_of(es@)[i as int] == s@);
            return true;
        }
        i = i + 1;
    }
    false
}

impl HistoryStore {
    /// Ids are the positions, and no content occurs twice.
    pub open spec fn wf(&self) -> bool {
        &&& forall|i: int| 0 <= i < self@.len() ==> #[trigger] self@[i].id == i
        &&& distinct(contents_of(self@))
    }

    /// Builds the store from raw records, most recent first: each content is
    /// kept at its most recent occurrence and ids are assigned from 0.
    pub fn from_newest_first(raw: &Vec<(Option<String>, String)>) -> (r: HistoryStore)
        ensures
            r.wf(),
            contents_of(r@) == dedup(raw_contents(raw@)),
            r@.len() == first_indices(raw_contents(raw@)).len(),
            forall|k: int|
                0 <= k < r@.len() ==> (#[trigger] r@[k]).content == raw@[first_indices(
                    raw_contents(raw@),
                )[k]].1 && r@[k].external_key == raw@[first_indices(raw_contents(raw@))[k]].0,
    {
        let ghost c = raw_contents(raw@);
        let mut out: Vec<Entry> = Vec::new();
        let mut i: usize = 0;
        proof {
            assert(c.take(0) =~= seq![]);
        }
        while i < raw.len()
            invariant
                i <= raw.len(),
                c == raw_contents(raw@),
                out@.len() == first_indices(c.take(i as int)).len(),
                forall|k: int| 0 <= k < out@.len() ==> #[trigger] out@[k].id == k,
                forall|k: int|
                    0 <= k < out@.len() ==> (#[trigger] out@[k]).content == raw@[first_indices(
                        c.take(i as int),
                    )[k]].1 && out@[k].external_key == raw@[first_indices(c.take(i as int))[k]].0,
                contents_of(out@) == dedup(c.take(i as int)),
            decreases raw.len() - i,
        {
            let ghost t = c.take(i as int);
            let ghost t1 = c.take(i + 1);
            proof {
                lemma_first_indices(t);
                lemma_dedup(t);
                assert(t1.drop_last() =~= t);
                assert(t1.last() == raw@[i as int].1@);
            }
            let seen = holds_content(&out, &raw[i].1);
            if !seen {
                let e = Entry {
                    id: out.len(),
                    content: raw[i].1.clone(),
                    external_key: clone_key(&raw[i].0),
                };
                out.push(e);
            }
            proof {
                lemma_first_indices(t1);
                assert(contents_of(out@) =~= dedup(t1));
            }
            i = i + 1;
        }
        assert(c.take(raw@.len() as int) =~= c);
        proof {
            lemma_dedup(c);
        }
        HistoryStore { entries: out }
    }

    /// Builds the store from the payloads of a log read oldest first: the
    /// payloads that are not UTF-8 are dropped, the order is reversed, each
    /// content is kept at its most recent occurrence, and no entry has a key.
    pub fn from_log(raw: &Vec<Vec<u8>>) -> (r: HistoryStore)
        ensures
            r.wf(),
            contents_of(r@) == dedup(log_texts(raw@.map_values(|b: Vec<u8>| b@))),
            forall|k: int| 0 <= k < r@.len() ==> (#[trigger] r@[k]).external_key is None,
    {
        let ghost all = raw@.map_values(|b: Vec<u8>| b@);
        let mut rev: Vec<(Option<String>, String)> = Vec::new();
        let mut i: usize = raw.len();
        assert(all.take(i as int) =~= all);
        while i > 0
            invariant
                i <= raw.len(),
                all == raw@.map_values(|b: Vec<u8>| b@),
                raw_contents(rev@) + log_texts(all.take(i as int)) == log_texts(all),
                forall|k: int| 0 <= k < rev@.len() ==> (#[trigger] rev@[k]).0 is None,
            decreases i,
        {
            let ghost before = rev@;
            let ghost t = all.take(i as int);
            assert(t.drop_last() =~= all.take(i - 1));
            i = i - 1;
            match utf8_string(&raw[i]) {
                Some(text) => {
                    rev.push((None, text));
                    assert(raw_contents(rev@) =~= raw_contents(before) + seq![decode_utf8(all[i as int])]);
                },
                None => {},
            }
            assert(raw_contents(rev@) + log_texts(all.take(i as int)) =~= log_texts(all));
        }
        assert(all.take(0) =~= seq![]);
        assert(raw_contents(rev@) =~= log_texts(all));
        let r = HistoryStore::from_newest_first(&rev);
        proof {
            lemma_first_indices(raw_contents(rev@));
        }
        r
    }

    /// Loading keeps a repeated content once, at its most recent occurrence: in a
    /// store loaded from `raw` (most recent first), where the content at `i` first
    /// occurs there and again at `j`, exactly one entry holds it, at the number of
    /// distinct contents before `i`, and that entry's id is its position.
    pub proof fn lemma_loaded_keeps_first(self, raw: Seq<Seq<char>>, i: int, j: int)
        requires
            self.wf(),
            contents_of(self@) == dedup(raw),
            0 <= i < j < raw.len(),
            raw[i] == raw[j],
            !raw.take(i).contains(raw[i]),
        ensures
            dedup(raw.take(i)).len() < self@.len(),
            self@[dedup(raw.take(i)).len() as int].content@ == raw[i],
            self@[dedup(raw.take(i)).len() as int].id == dedup(raw.take(i)).len(),
            forall|q: int|
                0 <= q < self@.len() && (#[trigger] self@[q]).content@ == raw[i] ==> q == dedup(
                    raw.take(i),
                ).len(),
    {
        lemma_dedup_keeps_first(raw, i, j);
        assert forall|q: int| 0 <= q < self@.len() && (#[trigger] self@[q]).content@ == raw[i]
            implies q == dedup(raw.take(i)).len() by {
            assert(contents_of(self@)[q] == raw[i]);
        }
        assert(contents_of(self@)[dedup(raw.take(i)).len() as int] == raw[i]);
    }

    /// Number of entries.
    pub fn len(&self) -> (r: usize)
        ensures
            r == self@.len(),
    {
        self.entries.len()
    }

    /// The entry with the given id.
    pub fn entry(&self, id: usize) -> (r: &Entry)
        requires
            id < self@.len(),
        ensures
            *r == self@[id as int],
    {
        &self.entries[id]
    }

    /// The content of the entry with the given id, or `None` where no entry has it.
    pub fn resolve(&self, id: usize) -> (r: Option<&String>)
        ensures
            r is Some <==> id < self@.len(),
            r is Some ==> *r->0 == self@[id as int].content,
    {
        if id < self.entries.len() {
            Some(&self.entries[id].content)
        } else {
            None
        }
    }

    /// The request that asks the external decoder for the full payload of an
    /// entry: its key, a tab and a space. `None` where no entry has the id, or
    /// the entry has no key.
    pub fn decode_request(&self, id: usize) -> (r: Option<String>)
        ensures
            r is Some <==> id < self@.len() && self@[id as int].external_key is Some,
            r is Some ==> r->0@ == self@[id as int].external_key->0@ + seq!['\t', ' '],
    {
        if id < self.entries.len() {
            match &self.entries[id].external_key {
                Some(k) => {
                    let mut req = k.clone();
                    push_char(&mut req, '\t');
                    push_char(&mut req, ' ');
                    assert(req@ =~= k@ + seq!['\t', ' ']);
                    Some(req)
                },
                None => None,
            }
        } else {
            None
        }
    }
}

} // verus!
