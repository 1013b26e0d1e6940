//! Reading the output of the history tool's `list` command.
use vstd::prelude::*;

use vstd::utf8::{decode_utf8, valid_utf8};

use crate::store::{
    contents_of, dedup, first_indices, lemma_first_indices, raw_contents, utf8_string,
    HistoryStore,
};
use crate::text::{chars_of, string_of};

verus! {

/// The byte that ends a line.
pub const NEWLINE: u8 = 10;

/// Position of the first tab of `line`, or its length where it has none.
pub open spec fn first_tab(line: Seq<char>) -> int
    decreases line.len(),
{
    if line.len() == 0 {
        0
    } else if line[0] == '\t' {
        0
    } else {
        1 + first_tab(line.drop_first())
    }
}

/// A line split at its first tab into key and content; `None` without a tab.
pub open spec fn record_of(line: Seq<char>) -> Option<(Seq<char>, Seq<char>)> {
    let t = first_tab(line);
    if t < line.len() {
        Some((line.take(t), line.skip(t + 1)))
    } else {
        None
    }
}

/// `s` split at each newline byte; the last piece follows the last newline.
pub open spec fn split_lines(s: Seq<u8>) -> Seq<Seq<u8>>
    decreases s.len(),
{
    if s.len() == 0 {
        seq![seq![]]
    } else {
        let r = split_lines(s.drop_last());
        if s.last() == NEWLINE {
            r.push(seq![])
        } else {
            r.update(r.len() - 1, r.last().push(s.last()))
        }
    }
}

/// The text of each line that is UTF-8, in order; the other lines are dropped.
pub open spec fn text_lines(lines: Seq<Seq<u8>>) -> Seq<Seq<char>>
    decreases lines.len(),
{
    if lines.len() == 0 {
        seq![]
    } else if valid_utf8(lines.last()) {
        text_lines(lines.drop_last()).push(decode_utf8(lines.last()))
    } else {
        text_lines(lines.drop_last())
    }
}

/// The records of the lines that hold a tab, in order.
pub open spec fn records(lines: Seq<Seq<char>>) -> Seq<(Seq<char>, Seq<char>)>
    decreases lines.len(),
{
    if lines.len() == 0 {
        seq![]
    } else {
        let r = records(lines.drop_last());
        match record_of(lines.last()) {
            Some(p) => r.push(p),
            None => r,
        }
    }
}

/// The records of a `list` output: its UTF-8 lines that hold a tab.
pub open spec fn listing(s: Seq<u8>) -> Seq<(Seq<char>, Seq<char>)> {
    records(text_lines(split_lines(s)))
}

/// The contents of a `list` output's records, in order.
pub open spec fn listing_contents(s: Seq<u8>) -> Seq<Seq<char>> {
    listing(s).map_values(|p: (Seq<char>, Seq<char>)| p.1)
}

proof fn lemma_first_tab(line: Seq<char>, t: int)
    requires
        0 <= t <= line.len(),
        forall|k: int| 0 <= k < t ==> line[k] != '\t',
        t == line.len() || line[t] == '\t',
    ensures
        first_tab(line) == t,
    decreases t,
{
    if t > 0 {
        lemma_first_tab(line.drop_first(), t - 1);
    }
}

/// The records of the lines after one more line, as `push_record` leaves them.
proof fn lemma_push_record(
    lines: Seq<Seq<char>>,
    line: Seq<char>,
    before: Seq<(Option<String>, String)>,
    after: Seq<(Option<String>, String)>,
)
    requires
        before.len() == records(lines).len(),
        forall|k: int|
            0 <= k < before.len() ==> (#[trigger] before[k]).0 is Some && before[k].0->0@
                == records(lines)[k].0 && before[k].1@ == records(lines)[k].1,
        match record_of(line) {
            Some(p) => {
                &&& after.len() == before.len() + 1
                &&& after.take(before.len() as int) == before
                &&& after.last().0 is Some
                &&& after.last().0->0@ == p.0
                &&& after.last().1@ == p.1
            },
            None => after == before,
        },
    ensures
        after.len() == records(lines.push(line)).len(),
        forall|k: int|
            0 <= k < after.len() ==> (#[trigger] after[k]).0 is Some && after[k].0->0@ == records(
                lines.push(line),
            )[k].0 && after[k].1@ == records(lines.push(line))[k].1,
{
    assert(lines.push(line).drop_last() =~= lines);
    assert(lines.push(line).last() == line);
    let r = records(lines.push(line));
    match record_of(line) {
        Some(p) => {
            assert(r == records(lines).push(p));
            assert forall|k: int| 0 <= k < after.len() implies (#[trigger] after[k]).0 is Some
                && after[k].0->0@ == r[k].0 && after[k].1@ == r[k].1 by {
                if k < before.len() {
                    assert(after.take(before.len() as int)[k] == after[k]);
                }
            }
        },
        None => {},
    }
}

/// Pushes the record of `v[start..end]`, if that line holds a tab.
fn push_record(out: &mut Vec<(Option<String>, String)>, v: &Vec<char>, start: usize, end: usize)
    requires
        start <= end <= v.len(),
    ensures
        match record_of(v@.subrange(start as int, end as int)) {
            Some(p) => {
                &&& final(out)@.len() == old(out)@.len() + 1
                &&& final(out)@.take(old(out)@.len() as int) == old(out)@
                &&& final(out)@.last().0 is Some
                &&& final(out)@.last().0->0@ == p.0
                &&& final(out)@.last().1@ == p.1
            },
            None => final(out)@ == old(out)@,
        },
{
    let ghost line = v@.subrange(start as int, end as int);
    let mut t: usize = start;
    while t < end && v[t] != '\t'
        invariant
            start <= t <= end <= v.len(),
            forall|k: int| start <= k < t ==> v@[k] != '\t',
        decreases end - t,
    {
        t = t + 1;
    }
    proof {
        lemma_first_tab(line, t - start);
    }
    if t < end {
        let key = string_of(v, start, t);
        let content = string_of(v, t + 1, end);
        assert(key@ =~= line.take(t - start));
        assert(content@ =~= line.skip(t - start + 1));
        let ghost before = out@;
        out.push((Some(key), content));
        assert(out@.take(before.len() as int) =~= before);
    }
}

/// Models of the records pushed so far, as `parse_listing` keeps them.
pub open spec fn models(out: Seq<(Option<String>, String)>, recs: Seq<(Seq<char>, Seq<char>)>) -> bool {
    &&& out.len() == recs.len()
    &&& forall|k: int|
        0 <= k < out.len() ==> (#[trigger] out[k]).0 is Some && out[k].0->0@ == recs[k].0
            && out[k].1@ == recs[k].1
}

/// One more byte line keeps the models in step.
proof fn lemma_push_line(
    lines: Seq<Seq<u8>>,
    line: Seq<u8>,
    before: Seq<(Option<String>, String)>,
    after: Seq<(Option<String>, String)>,
)
    requires
        models(before, records(text_lines(lines))),
        valid_utf8(line) ==> match record_of(decode_utf8(line)) {
            Some(p) => {
                &&& after.len() == before.len() + 1
                &&& after.take(before.len() as int) == before
                &&& after.last().0 is Some
                &&& after.last().0->0@ == p.0
                &&& after.last().1@ == p.1
            },
            None => after == before,
        },
        !valid_utf8(line) ==> after == before,
    ensures
        models(after, records(text_lines(lines.push(line)))),
{
    assert(lines.push(line).drop_last() =~= lines);
    assert(lines.push(line).last() == line);
    if valid_utf8(line) {
        lemma_push_record(text_lines(lines), decode_utf8(line), before, after);
    }
}

/// Pushes the record of the line `b[start..end]`, if it is UTF-8 and holds a tab.
fn push_line(out: &mut Vec<(Option<String>, String)>, b: &Vec<u8>, start: usize, end: usize)
    requires
        start <= end <= b.len(),
    ensures
        ({
            let line = b@.subrange(start as int, end as int);
            &&& valid_utf8(line) ==> match record_of(decode_utf8(line)) {
                Some(p) => {
                    &&& final(out)@.len() == old(out)@.len() + 1
                    &&& final(out)@.take(old(out)@.len() as int) == old(out)@
                    &&& final(out)@.last().0 is Some
                    &&& final(out)@.last().0->0@ == p.0
                    &&& final(out)@.last().1@ == p.1
                },
                None => final(out)@ == old(out)@,
            }
            &&& !valid_utf8(line) ==> final(out)@ == old(out)@
        }),
{
    let mut bytes: Vec<u8> = Vec::new();
    let mut i: usize = start;
    while i < end
        invariant
            start <= i <= end <= b.len(),
            bytes@ == b@.subrange(start as int, i as int),
        decreases end - i,
    {
        bytes.push(b[i]);
        i = i + 1;
        assert(bytes@ =~= b@.subrange(start as int, i as int));
    }
    match utf8_string(&bytes) {
        Some(text) => {
            let v = chars_of(text.as_str());
            assert(v@.subrange(0, v@.len() as int) =~= v@);
            push_record(out, &v, 0, v.len());
        },
        None => {},
    }
}

/// The `(key, content)` records of a `list` output: one per line that is
/// UTF-8 and holds a tab, split at its first tab; other lines are dropped.
pub fn parse_listing(output: &Vec<u8>) -> (r: Vec<(Option<String>, String)>)
    ensures
        models(r@, listing(output@)),
{
    let mut out: Vec<(Option<String>, String)> = Vec::new();
    let ghost mut lines: Seq<Seq<u8>> = seq![];
    let mut start: usize = 0;
    let mut i: usize = 0;
    assert(output@.take(0) =~= seq![]);
    assert(output@.subrange(0, 0) =~= seq![]);
    assert(split_lines(seq![]) == lines.push(seq![]));
    while i < output.len()
        invariant
            start <= i <= output.len(),
            split_lines(output@.take(i as int)) == lines.push(
                output@.subrange(start as int, i as int),
            ),
            models(out@, records(text_lines(lines))),
        decreases output.len() - i,
    {
        let ghost t1 = output@.take(i + 1);
        assert(t1.drop_last() =~= output@.take(i as int));
        assert(t1.last() == output@[i as int]);
        if output[i] == NEWLINE {
            let ghost before = out@;
            let ghost line = output@.subrange(start as int, i as int);
            push_line(&mut out, output, start, i);
            proof {
                lemma_push_line(lines, line, before, out@);
                lines = lines.push(line);
                assert(output@.subrange(i + 1, i + 1) =~= seq![]);
            }
            start = i + 1;
        } else {
            proof {
                let r = lines.push(output@.subrange(start as int, i as int));
                assert(output@.subrange(start as int, i as int).push(output@[i as int])
                    =~= output@.subrange(start as int, i + 1));
                assert(r.update(r.len() - 1, r.last().push(output@[i as int])) =~= lines.push(
                    output@.subrange(start as int, i + 1),
                ));
            }
        }
        i = i + 1;
    }
    let ghost before = out@;
    let ghost line = output@.subrange(start as int, i as int);
    push_line(&mut out, output, start, i);
    proof {
        assert(output@.take(i as int) =~= output@);
        lemma_push_line(lines, line, before, out@);
    }
    out
}

/// Why the history could not be loaded, or an entry not decoded.
#[derive(PartialEq, Eq, Structural, Debug, Clone, Copy)]
pub enum HistoryError {
    /// The log of the history could not be opened.
    StoreUnavailable,
    /// The history tool could not be started.
    CommandSpawnFailed,
    /// The history tool exited with this status code.
    CommandExit(i32),
    /// Writing to or reading from the decode command failed.
    DecodeIoFailed,
}

/// Loads the history from the outcome of the `list` command: its success, its
/// exit code if any, and its output. A failed command yields its exit code
/// (1 where it has none). Otherwise each record's content is kept at its most
/// recent occurrence, together with that occurrence's key.
pub fn load_listing(success: bool, code: Option<i32>, output: &Vec<u8>) -> (r: Result<
    HistoryStore,
    HistoryError,
>)
    ensures
        !success ==> r == Err::<HistoryStore, HistoryError>(
            HistoryError::CommandExit(
                match code {
                    Some(c) => c,
                    None => 1,
                },
            ),
        ),
        success ==> r is Ok && loaded_from(r->Ok_0, output@),
{
    if !success {
        return Err(
            HistoryError::CommandExit(
                match code {
                    Some(c) => c,
                    None => 1,
                },
            ),
        );
    }
    let raw = parse_listing(output);
    let ghost recs = listing(output@);
    assert(raw_contents(raw@) =~= listing_contents(output@));
    let store = HistoryStore::from_newest_first(&raw);
    proof {
        lemma_first_indices(listing_contents(output@));
        let f = first_indices(listing_contents(output@));
        assert forall|k: int| 0 <= k < store@.len() implies (#[trigger] store@[k]).content@
            == recs[f[k]].1 && store@[k].external_key is Some && store@[k].external_key->0@
            == recs[f[k]].0 by {
            assert(0 <= f[k] < raw@.len());
        }
    }
    Ok(store)
}

/// `store` holds the history of a `list` output: the contents of its records,
/// each at its most recent occurrence, with that occurrence's key.
pub open spec fn loaded_from(store: HistoryStore, output: Seq<u8>) -> bool {
    let f = first_indices(listing_contents(output));
    &&& store.wf()
    &&& contents_of(store@) == dedup(listing_contents(output))
    &&& store@.len() == f.len()
    &&& forall|k: int|
        0 <= k < store@.len() ==> (#[trigger] store@[k]).content@ == listing(output)[f[k]].1
            && store@[k].external_key is Some && store@[k].external_key->0@ == listing(
            output,
        )[f[k]].0
}

} // verus!
