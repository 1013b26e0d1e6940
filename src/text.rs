//! Character-level helpers: string building and display titles.
use vstd::prelude::*;

verus! {

/// Relies on `String::push`: appends one character at the end.
#[verifier::external_body]
pub(crate) fn push_char(s: &mut String, c: char)
    ensures
        final(s)@ == old(s)@.push(c),
{
    s.push(c);
}

/// The characters of `s`, in order.
pub fn chars_of(s: &str) -> (r: Vec<char>)
    ensures
        r@ == s@,
{
    let mut r: Vec<char> = Vec::new();
    for c in it: s.chars()
        invariant
            it.seq() == s@,
            r@ == it.seq().take(it.index() as int),
    {
        r.push(c);
    }
    r
}

/// Largest number of characters in a display title.
pub const TITLE_MAX: usize = 100;

/// The characters that `str::trim` removes (Unicode `White_Space`).
pub open spec fn is_space(c: char) -> bool {
    ('\u{9}' <= c && c <= '\u{d}') || c == ' ' || c == '\u{85}' || c == '\u{a0}'
        || c == '\u{1680}' || ('\u{2000}' <= c && c <= '\u{200a}') || c == '\u{2028}'
        || c == '\u{2029}' || c == '\u{202f}' || c == '\u{205f}' || c == '\u{3000}'
}

pub fn space(c: char) -> (r: bool)
    ensures
        r == is_space(c),
{
    ('\u{9}' <= c && c <= '\u{d}') || c == ' ' || c == '\u{85}' || c == '\u{a0}' || c
        == '\u{1680}' || ('\u{2000}' <= c && c <= '\u{200a}') || c == '\u{2028}' || c
        == '\u{2029}' || c == '\u{202f}' || c == '\u{205f}' || c == '\u{3000}'
}

/// `s` with every newline replaced by a single space.
pub open spec fn flatten(s: Seq<char>) -> Seq<char> {
    s.map_values(|c: char| if c == '\n' { ' ' } else { c })
}

/// `s` without its leading whitespace.
pub open spec fn trim_start(s: Seq<char>) -> Seq<char>
    decreases s.len(),
{
    if s.len() > 0 && is_space(s[0]) {
        trim_start(s.drop_first())
    } else {
        s
    }
}

/// `s` without its trailing whitespace.
pub open spec fn trim_end(s: Seq<char>) -> Seq<char>
    decreases s.len(),
{
    if s.len() > 0 && is_space(s.last()) {
        trim_end(s.drop_last())
    } else {
        s
    }
}

/// The single-line title shown for an entry: newlines become spaces, the
/// first `TITLE_MAX` characters are kept, and surrounding whitespace is trimmed.
pub open spec fn title_of(s: Seq<char>) -> Seq<char> {
    let n: int = if s.len() <= TITLE_MAX { s.len() as int } else { TITLE_MAX as int };
    trim_end(trim_start(flatten(s).take(n)))
}

/// `trim_start(s)` drops exactly the leading run of whitespace.
proof fn lemma_trim_start(s: Seq<char>, i: int)
    requires
        0 <= i <= s.len(),
        forall|k: int| 0 <= k < i ==> is_space(#[trigger] s[k]),
        i == s.len() || !is_space(s[i]),
    ensures
        trim_start(s) == s.skip(i),
    decreases i,
{
    if i > 0 {
        lemma_trim_start(s.drop_first(), i - 1);
        assert(s.drop_first().skip(i - 1) =~= s.skip(i));
    } else {
        assert(s.skip(0) =~= s);
    }
}

/// `trim_end(s)` drops exactly the trailing run of whitespace.
proof fn lemma_trim_end(s: Seq<char>, j: int)
    requires
        0 <= j <= s.len(),
        forall|k: int| j <= k < s.len() ==> is_space(#[trigger] s[k]),
        j == 0 || !is_space(s[j - 1]),
    ensures
        trim_end(s) == s.take(j),
    decreases s.len() - j,
{
    if j < s.len() {
        lemma_trim_end(s.drop_last(), j);
        assert(s.drop_last().take(j) =~= s.take(j));
    } else {
        assert(s.take(j) =~= s);
    }
}

/// A title keeps exactly `TITLE_MAX` characters of a longer content, where
/// the first and the last kept characters are not whitespace.
pub proof fn lemma_title_cut(s: Seq<char>)
    requires
        s.len() > TITLE_MAX,
        !is_space(flatten(s)[0]),
        !is_space(flatten(s)[TITLE_MAX - 1]),
    ensures
        title_of(s) == flatten(s).take(TITLE_MAX as int),
        title_of(s).len() == TITLE_MAX,
{
    let t = flatten(s).take(TITLE_MAX as int);
    lemma_trim_start(t, 0);
    assert(t.skip(0) =~= t);
    lemma_trim_end(t, TITLE_MAX as int);
    assert(t.take(TITLE_MAX as int) =~= t);
}

/// A `String` holding `v[from..to]`.
pub fn string_of(v: &Vec<char>, from: usize, to: usize) -> (r: String)
    requires
        from <= to <= v.len(),
    ensures
        r@ == v@.subrange(from as int, to as int),
{
    let mut r = String::new();
    let mut i: usize = from;
    while i < to
        invariant
            from <= i <= to <= v.len(),
            r@ == v@.subrange(from as int, i as int),
        decreases to - i,
    {
        push_char(&mut r, v[i]);
        i = i + 1;
        assert(r@ =~= v@.subrange(from as int, i as int));
    }
    r
}

/// The display title of `content`: at most `TITLE_MAX` characters, no newline.
pub fn make_title(content: &str) -> (r: String)
    ensures
        r@ == title_of(content@),
        r@.len() <= TITLE_MAX,
        !r@.contains('\n'),
{
    let chars = chars_of(content);
    let n: usize = if chars.len() <= TITLE_MAX { chars.len() } else { TITLE_MAX };
    let ghost flat = flatten(content@).take(n as int);
    let mut line: Vec<char> = Vec::new();
    let mut i: usize = 0;
    while i < n
        invariant
            i <= n <= chars.len(),
            n <= TITLE_MAX,
            chars@ == content@,
            flat == flatten(content@).take(n as int),
            line@ == flat.take(i as int),
        decreases n - i,
    {
        let c = chars[i];
        line.push(if c == '\n' { ' ' } else { c });
        i = i + 1;
        assert(line@ =~= flat.take(i as int));
    }
    assert(line@ =~= flat);
    let mut start: usize = 0;
    while start < n && space(line[start])
        invariant
            start <= n == line.len(),
            forall|k: int| 0 <= k < start ==> is_space(#[trigger] line@[k]),
        decreases n - start,
    {
        start = start + 1;
    }
    let mut end: usize = n;
    while end > start && space(line[end - 1])
        invariant
            start <= end <= n == line.len(),
            forall|k: int| end <= k < n ==> is_space(#[trigger] line@[k]),
        decreases end,
    {
        end = end - 1;
    }
    proof {
        lemma_trim_start(flat, start as int);
        let t = flat.skip(start as int);
        assert forall|k: int| end - start <= k < t.len() implies is_space(#[trigger] t[k]) by {
            assert(t[k] == flat[k + start]);
        }
        lemma_trim_end(t, end - start);
        assert(t.take(end - start) =~= line@.subrange(start as int, end as int));
        assert(!flat.contains('\n'));
    }
    let r = string_of(&line, start, end);
    proof {
        if r@.contains('\n') {
            let k = choose|k: int| 0 <= k < r@.len() && r@[k] == '\n';
            assert(flat[k + start] == '\n');
        }
    }
    r
}

} // verus!
