//! The Markdown grammar that the extractor reads: lines, fenced code blocks,
//! inline code spans, `#tags`, `[[wikilinks]]` and ATX headings.
//!
//! A line whose first non-blank characters are three backticks or three
//! tildes opens a fenced block, which the next such line of the same
//! character closes; the fence lines and the lines between them are code.
//! On the other lines, a run of `n` backticks opens an inline code span that
//! the next run of exactly `n` backticks on the line closes; a run that
//! nothing closes is plain text.
//! Everything else is prose; tags and wikilinks are read in prose only.
use vstd::prelude::*;

use crate::text::substring;

verus! {

/// The lines of `s`: the pieces between `'\n'` characters.
pub open spec fn split_lines(s: Seq<char>) -> Seq<Seq<char>>
    decreases s.len(),
{
    match s.index_of_first('\n') {
        Some(i) => if 0 <= i < s.len() {
            seq![s.take(i)] + split_lines(s.skip(i + 1))
        } else {
            seq![s]
        },
        None => seq![s],
    }
}

/// A blank character: one that Unicode counts as white space, the set that
/// `char::is_whitespace` and `str::trim` use.
pub open spec fn is_blank(c: char) -> bool {
    ||| c == ' ' || c == '\t' || c == '\n' || c == '\u{0B}' || c == '\u{0C}' || c == '\r'
    ||| c == '\u{85}' || c == '\u{A0}' || c == '\u{1680}'
    ||| ('\u{2000}' <= c && c <= '\u{200A}')
    ||| c == '\u{2028}' || c == '\u{2029}' || c == '\u{202F}' || c == '\u{205F}' || c == '\u{3000}'
}

/// Whether `c` is a blank character.
pub fn blank_char(c: char) -> (r: bool)
    ensures
        r == is_blank(c),
{
    c == ' ' || c == '\t' || c == '\n' || c == '\u{0B}' || c == '\u{0C}' || c == '\r' || c == '\u{85}'
        || c == '\u{A0}' || c == '\u{1680}' || ('\u{2000}' <= c && c <= '\u{200A}') || c == '\u{2028}'
        || c == '\u{2029}' || c == '\u{202F}' || c == '\u{205F}' || c == '\u{3000}'
}

/// The first non-blank characters of line `l` are three `c`.
pub open spec fn is_fence_of(l: Seq<char>, c: char) -> bool {
    exists|k: int|
        0 <= k && k + 3 <= l.len() && (forall|j: int| 0 <= j < k ==> is_blank(#[trigger] l[j]))
            && #[trigger] l[k] == c && l[k + 1] == c && l[k + 2] == c
}

/// The fence character of a fence line: a line whose first non-blank
/// characters are three backticks or three tildes.
pub open spec fn fence_kind(l: Seq<char>) -> Option<char> {
    if is_fence_of(l, '`') {
        Some('`')
    } else if is_fence_of(l, '~') {
        Some('~')
    } else {
        None
    }
}

/// The line opens or closes a fenced code block.
pub open spec fn is_fence(l: Seq<char>) -> bool {
    fence_kind(l) is Some
}

/// The open fence after a line of fence kind `f`, where `o` was open before:
/// a fence line opens a block, and closes one opened with the same character.
pub open spec fn next_open(o: Option<char>, f: Option<char>) -> Option<char> {
    match f {
        Some(c) => match o {
            None => Some(c),
            Some(d) => if d == c {
                None
            } else {
                Some(d)
            },
        },
        None => o,
    }
}

/// The fence character of the block open before line `k`, if any.
pub open spec fn open_fence(lines: Seq<Seq<char>>, k: int) -> Option<char>
    decreases k,
{
    if k <= 0 {
        None
    } else {
        next_open(open_fence(lines, k - 1), fence_kind(lines[k - 1]))
    }
}

/// Line `k` lies inside a fenced block.
pub open spec fn inside_fence(lines: Seq<Seq<char>>, k: int) -> bool {
    open_fence(lines, k) is Some
}

/// Line `k` is prose: neither a fence line nor inside a fenced block.
pub open spec fn prose_line(lines: Seq<Seq<char>>, k: int) -> bool {
    !is_fence(lines[k]) && !inside_fence(lines, k)
}

/// End of the run of backticks that starts at `j`.
pub open spec fn tick_run_end(l: Seq<char>, j: int) -> int
    decreases l.len() - j,
{
    if j < 0 || j >= l.len() || l[j] != '`' {
        j
    } else {
        tick_run_end(l, j + 1)
    }
}

/// A run of exactly `n` backticks starts at `k` (not inside a longer run).
pub open spec fn tick_run_at(l: Seq<char>, k: int, n: int) -> bool {
    0 <= k < l.len() && l[k] == '`' && (k == 0 || l[k - 1] != '`') && tick_run_end(l, k) - k == n
}

/// The first position at or after `k` where a run of exactly `n` backticks
/// starts.
pub open spec fn closing_run(l: Seq<char>, k: int, n: int) -> Option<int>
    decreases l.len() - k,
{
    if k < 0 || k >= l.len() {
        None
    } else if tick_run_at(l, k, n) {
        Some(k)
    } else {
        closing_run(l, k + 1, n)
    }
}

/// Reading line `l` from position `j`, position `i` lies in an inline code
/// span: a run of `n` backticks opens a span that the next run of exactly
/// `n` backticks closes; a run that nothing closes is plain text.
pub open spec fn in_span_from(l: Seq<char>, j: int, i: int) -> bool
    decreases l.len() - j,
{
    if j < 0 || i < j || j >= l.len() {
        false
    } else if l[j] != '`' {
        in_span_from(l, j + 1, i)
    } else {
        let e = tick_run_end(l, j);
        if e <= j || e > l.len() {
            false
        } else {
            match closing_run(l, e, e - j) {
                Some(c) => {
                    let f = tick_run_end(l, c);
                    if f <= j || f > l.len() {
                        false
                    } else if i < f {
                        true
                    } else {
                        in_span_from(l, f, i)
                    }
                },
                None => in_span_from(l, e, i),
            }
        }
    }
}

/// Position `i` of line `l` lies inside an inline code span.
pub open spec fn in_code_span(l: Seq<char>, i: int) -> bool {
    in_span_from(l, 0, i)
}

/// A character that may start a tag.
pub open spec fn is_tag_start(c: char) -> bool {
    ('a' <= c && c <= 'z') || ('A' <= c && c <= 'Z') || ('0' <= c && c <= '9')
}

/// A character that may continue a tag.
pub open spec fn is_tag_char(c: char) -> bool {
    is_tag_start(c) || c == '_' || c == '-'
}

/// End of the run of tag characters that starts at `j`.
pub open spec fn token_end(l: Seq<char>, j: int) -> int
    decreases l.len() - j,
{
    if j < 0 || j >= l.len() || !is_tag_char(l[j]) {
        j
    } else {
        token_end(l, j + 1)
    }
}

/// A tag starts at position `i` of line `l`: a `#` outside code, followed by
/// a letter or digit.
pub open spec fn tag_at(l: Seq<char>, i: int) -> bool {
    &&& 0 <= i && i + 1 < l.len()
    &&& l[i] == '#' && is_tag_start(l[i + 1])
    &&& !in_code_span(l, i)
}

/// The tag that starts at `i`, without its `#`.
pub open spec fn tag_text(l: Seq<char>, i: int) -> Seq<char> {
    l.subrange(i + 1, token_end(l, i + 1))
}

/// The tags that start among the first `n` positions of `l`, in order.
pub open spec fn tags_upto(l: Seq<char>, n: int) -> Seq<Seq<char>>
    decreases n,
{
    if n <= 0 {
        seq![]
    } else {
        tags_upto(l, n - 1) + if tag_at(l, n - 1) {
            seq![tag_text(l, n - 1)]
        } else {
            seq![]
        }
    }
}

/// The tags of the prose lines among the first `n` lines, in order.
pub open spec fn tag_occurrences(lines: Seq<Seq<char>>, n: int) -> Seq<Seq<char>>
    decreases n,
{
    if n <= 0 {
        seq![]
    } else {
        tag_occurrences(lines, n - 1) + if prose_line(lines, n - 1) {
            tags_upto(lines[n - 1], lines[n - 1].len() as int)
        } else {
            seq![]
        }
    }
}

/// Every character is a decimal digit.
pub open spec fn all_digits(t: Seq<char>) -> bool {
    forall|i: int| 0 <= i < t.len() ==> '0' <= #[trigger] t[i] && t[i] <= '9'
}

/// `t` is a tag of the document `content`: it occurs in prose and is not a
/// number.
pub open spec fn is_doc_tag(content: Seq<char>, t: Seq<char>) -> bool {
    let lines = split_lines(content);
    tag_occurrences(lines, lines.len() as int).contains(t) && !all_digits(t)
}

/// Splits `cs` into its lines.
pub fn lines_of(cs: &Vec<char>) -> (r: Vec<Vec<char>>)
    ensures
        r.deep_view() == split_lines(cs@),
{
    let ghost s = cs@;
    let mut out: Vec<Vec<char>> = Vec::new();
    let mut cur: Vec<char> = Vec::new();
    let mut start: usize = 0;
    let mut i: usize = 0;
    assert(s.skip(0) =~= s);
    assert(out.deep_view() =~= seq![]);
    while i < cs.len()
        invariant
            start <= i <= s.len(),
            s == cs@,
            cur@ == s.subrange(start as int, i as int),
            forall|k: int| start <= k < i ==> s[k] != '\n',
            out.deep_view() + split_lines(s.skip(start as int)) == split_lines(s),
        decreases s.len() - i,
    {
        if cs[i] == '\n' {
            proof {
                let rest = s.skip(start as int);
                rest.index_of_first_ensures('\n');
                assert(rest[i - start] == '\n');
                match rest.index_of_first('\n') {
                    Some(k) => {
                        if k < i - start {
                            assert(s[start + k] != '\n');
                        } else if k > i - start {
                            assert(rest[i - start] == '\n');
                        }
                    },
                    None => {
                        assert(rest.contains('\n'));
                    },
                }
                assert(rest.take(i - start) =~= cur@);
                assert(rest.skip(i - start + 1) =~= s.skip(i + 1));
                assert(split_lines(rest) == seq![cur@] + split_lines(s.skip(i + 1)));
            }
            let ghost before = out.deep_view();
            assert(cur.deep_view() =~= cur@);
            out.push(cur);
            assert(out.deep_view() =~= before.push(cur@));
            assert(out.deep_view() + split_lines(s.skip(i + 1)) =~= before + (seq![cur@]
                + split_lines(s.skip(i + 1))));
            cur = Vec::new();
            start = i + 1;
            assert(cur@ =~= s.subrange(start as int, start as int));
        } else {
            cur.push(cs[i]);
            assert(cur@ =~= s.subrange(start as int, i + 1));
        }
        i = i + 1;
    }
    proof {
        let rest = s.skip(start as int);
        rest.index_of_first_ensures('\n');
        if rest.contains('\n') {
            let k = choose|k: int| 0 <= k < rest.len() && rest[k] == '\n';
            assert(s[start + k] != '\n');
        }
        assert(rest =~= cur@);
        assert(split_lines(rest) == seq![cur@]);
    }
    let ghost before = out.deep_view();
    let ghost last = cur@;
    assert(cur.deep_view() =~= cur@);
    out.push(cur);
    assert(out.deep_view() =~= before.push(last));
    assert(out.deep_view() =~= before + seq![last]);
    out
}

/// Whether the first non-blank characters of the line are three `c`.
fn is_fence_line_of(l: &Vec<char>, c: char) -> (r: bool)
    requires
        !is_blank(c),
    ensures
        r == is_fence_of(l@, c),
{
    let mut k: usize = 0;
    while k < l.len() && blank_char(l[k])
        invariant
            k <= l@.len(),
            forall|j: int| 0 <= j < k ==> is_blank(#[trigger] l@[j]),
        decreases l@.len() - k,
    {
        k = k + 1;
    }
    let r = k < l.len() && l.len() - k >= 3 && l[k] == c && l[k + 1] == c && l[k + 2] == c;
    proof {
        if !r && is_fence_of(l@, c) {
            let m = choose|m: int|
                0 <= m && m + 3 <= l@.len() && (forall|j: int| 0 <= j < m ==> is_blank(#[trigger] l@[j]))
                    && #[trigger] l@[m] == c && l@[m + 1] == c && l@[m + 2] == c;
            if m < k {
                assert(is_blank(l@[m]));
            } else if m > k {
                assert(is_blank(l@[k as int]));
            }
        }
    }
    r
}

/// The fence character of the line, where it is a fence line.
pub fn fence_kind_of(l: &Vec<char>) -> (r: Option<char>)
    ensures
        r == fence_kind(l@),
{
    if is_fence_line_of(l, '`') {
        Some('`')
    } else if is_fence_line_of(l, '~') {
        Some('~')
    } else {
        None
    }
}

/// The open fence after a line of fence kind `f`.
fn step_fence(o: Option<char>, f: Option<char>) -> (r: Option<char>)
    ensures
        r == next_open(o, f),
{
    match f {
        Some(c) => match o {
            None => Some(c),
            Some(d) => if d == c {
                None
            } else {
                Some(d)
            },
        },
        None => o,
    }
}

/// End of the run of backticks that starts at `j`.
fn tick_run_end_exec(l: &Vec<char>, j: usize) -> (r: usize)
    requires
        j <= l@.len(),
    ensures
        r as int == tick_run_end(l@, j as int),
        j <= r <= l@.len(),
        j < l@.len() && l@[j as int] == '`' ==> j < r,
{
    let mut e: usize = j;
    while e < l.len() && l[e] == '`'
        invariant
            j <= e <= l@.len(),
            tick_run_end(l@, e as int) == tick_run_end(l@, j as int),
            j < l@.len() && l@[j as int] == '`' && e == j ==> e < l@.len() && l@[e as int] == '`',
        decreases l@.len() - e,
    {
        e = e + 1;
    }
    e
}

/// The first run of exactly `n` backticks at or after `k`.
fn closing_run_exec(l: &Vec<char>, k: usize, n: usize) -> (r: Option<usize>)
    requires
        k <= l@.len(),
    ensures
        r matches Some(c) ==> closing_run(l@, k as int, n as int) == Some(c as int) && k <= c < l@.len()
            && l@[c as int] == '`',
        r is None ==> closing_run(l@, k as int, n as int) is None,
{
    let mut p: usize = k;
    while p < l.len()
        invariant
            k <= p <= l@.len(),
            closing_run(l@, p as int, n as int) == closing_run(l@, k as int, n as int),
        decreases l@.len() - p,
    {
        if l[p] == '`' && (p == 0 || l[p - 1] != '`') {
            let e = tick_run_end_exec(l, p);
            if e - p == n {
                return Some(p);
            }
        }
        p = p + 1;
    }
    None
}

/// For each position of the line, whether it lies in an inline code span.
pub fn code_span_mask(l: &Vec<char>) -> (m: Vec<bool>)
    ensures
        m@.len() == l@.len(),
        forall|i: int| 0 <= i < l@.len() ==> m@[i] == in_code_span(l@, i),
{
    let mut m: Vec<bool> = Vec::new();
    let mut j: usize = 0;
    while j < l.len()
        invariant
            j == m@.len() <= l@.len(),
            forall|i: int| 0 <= i < j ==> m@[i] == in_span_from(l@, 0, i),
            forall|i: int| j <= i ==> #[trigger] in_span_from(l@, 0, i) == in_span_from(l@, j as int, i),
        decreases l@.len() - j,
    {
        if l[j] != '`' {
            assert forall|i: int| j + 1 <= i implies #[trigger] in_span_from(l@, 0, i) == in_span_from(
                l@,
                j + 1,
                i,
            ) by {
                assert(in_span_from(l@, 0, i) == in_span_from(l@, j as int, i));
            }
            assert(in_span_from(l@, 0, j as int) == in_span_from(l@, j as int, j as int));
            assert(in_span_from(l@, j + 1, j as int) == false);
            m.push(false);
            j = j + 1;
        } else {
            let j0 = j;
            let e = tick_run_end_exec(l, j);
            match closing_run_exec(l, e, e - j) {
                Some(c) => {
                    let f = tick_run_end_exec(l, c);
                    assert forall|i: int| j0 <= i < f implies #[trigger] in_span_from(l@, 0, i) by {
                        assert(in_span_from(l@, 0, i) == in_span_from(l@, j0 as int, i));
                    }
                    assert forall|i: int| f <= i implies #[trigger] in_span_from(l@, 0, i) == in_span_from(
                        l@,
                        f as int,
                        i,
                    ) by {
                        assert(in_span_from(l@, 0, i) == in_span_from(l@, j0 as int, i));
                    }
                    while j < f
                        invariant
                            j0 <= j <= f <= l@.len(),
                            j == m@.len(),
                            forall|i: int| 0 <= i < j ==> m@[i] == in_span_from(l@, 0, i),
                            forall|i: int| j0 <= i < f ==> #[trigger] in_span_from(l@, 0, i),
                        decreases f - j,
                    {
                        m.push(true);
                        j = j + 1;
                    }
                },
                None => {
                    assert forall|i: int| j0 <= i < e implies !#[trigger] in_span_from(l@, 0, i) by {
                        assert(!in_span_from(l@, e as int, i));
                        assert(in_span_from(l@, 0, i) == in_span_from(l@, j0 as int, i));
                    }
                    assert forall|i: int| e <= i implies #[trigger] in_span_from(l@, 0, i) == in_span_from(
                        l@,
                        e as int,
                        i,
                    ) by {
                        assert(in_span_from(l@, 0, i) == in_span_from(l@, j0 as int, i));
                    }
                    while j < e
                        invariant
                            j0 <= j <= e <= l@.len(),
                            j == m@.len(),
                            forall|i: int| 0 <= i < j ==> m@[i] == in_span_from(l@, 0, i),
                            forall|i: int| j0 <= i < e ==> !#[trigger] in_span_from(l@, 0, i),
                        decreases e - j,
                    {
                        m.push(false);
                        j = j + 1;
                    }
                },
            }
        }
    }
    m
}

/// Whether `c` may start a tag.
pub fn tag_start_char(c: char) -> (r: bool)
    ensures
        r == is_tag_start(c),
{
    ('a' <= c && c <= 'z') || ('A' <= c && c <= 'Z') || ('0' <= c && c <= '9')
}

/// Whether `c` may continue a tag.
pub fn tag_char(c: char) -> (r: bool)
    ensures
        r == is_tag_char(c),
{
    tag_start_char(c) || c == '_' || c == '-'
}

/// End of the run of tag characters that starts at `j`.
fn token_end_exec(l: &Vec<char>, j: usize) -> (r: usize)
    requires
        j <= l@.len(),
    ensures
        r as int == token_end(l@, j as int),
        j <= r <= l@.len(),
{
    let mut e: usize = j;
    while e < l.len() && tag_char(l[e])
        invariant
            j <= e <= l@.len(),
            token_end(l@, e as int) == token_end(l@, j as int),
        decreases l@.len() - e,
    {
        e = e + 1;
    }
    e
}

/// Appends the tags of line `l`, in order.
fn push_line_tags(l: &Vec<char>, out: &mut Vec<String>)
    ensures
        final(out).deep_view() == old(out).deep_view() + tags_upto(l@, l@.len() as int),
{
    let mask = code_span_mask(l);
    let mut i: usize = 0;
    while i < l.len()
        invariant
            i <= l@.len(),
            mask@.len() == l@.len(),
            forall|k: int| 0 <= k < l@.len() ==> mask@[k] == in_code_span(l@, k),
            out.deep_view() == old(out).deep_view() + tags_upto(l@, i as int),
        decreases l@.len() - i,
    {
        let ghost before = out.deep_view();
        if l[i] == '#' && i + 1 < l.len() && tag_start_char(l[i + 1]) && !mask[i] {
            let e = token_end_exec(l, i + 1);
            let t = substring(l, i + 1, e);
            out.push(t);
            assert(out.deep_view() =~= before + seq![tag_text(l@, i as int)]);
        } else {
            assert(out.deep_view() =~= before + seq![]);
        }
        assert(tags_upto(l@, i + 1) == tags_upto(l@, i as int) + if tag_at(l@, i as int) {
            seq![tag_text(l@, i as int)]
        } else {
            seq![]
        });
        i = i + 1;
    }
}

/// The tags of the prose lines, in document order, numbers included.
pub fn tag_occurrences_of(lines: &Vec<Vec<char>>) -> (r: Vec<String>)
    ensures
        r.deep_view() == tag_occurrences(lines.deep_view(), lines@.len() as int),
{
    let ghost ls = lines.deep_view();
    let mut out: Vec<String> = Vec::new();
    let mut open: Option<char> = None;
    let mut k: usize = 0;
    while k < lines.len()
        invariant
            k <= lines@.len(),
            ls == lines.deep_view(),
            open == open_fence(ls, k as int),
            out.deep_view() == tag_occurrences(ls, k as int),
        decreases lines@.len() - k,
    {
        assert(ls[k as int] == lines@[k as int]@);
        let f = fence_kind_of(&lines[k]);
        let ghost before = out.deep_view();
        if f.is_none() && open.is_none() {
            push_line_tags(&lines[k], &mut out);
        } else {
            assert(out.deep_view() =~= before + seq![]);
        }
        open = step_fence(open, f);
        k = k + 1;
    }
    out
}

} // verus!

verus! {

/// A character that may stand inside `[[...]]`.
pub open spec fn is_link_char(c: char) -> bool {
    c != '[' && c != ']' && c != '`'
}

/// End of the run of link characters that starts at `j`.
pub open spec fn link_end(l: Seq<char>, j: int) -> int
    decreases l.len() - j,
{
    if j < 0 || j >= l.len() || !is_link_char(l[j]) {
        j
    } else {
        link_end(l, j + 1)
    }
}

/// The part of `s` before the first `c`; all of `s` where it holds none.
pub open spec fn before_char(s: Seq<char>, c: char) -> Seq<char> {
    match s.index_of_first(c) {
        Some(k) => s.take(k),
        None => s,
    }
}

/// The part of `s` after the first `c`, where it holds one.
pub open spec fn after_char(s: Seq<char>, c: char) -> Option<Seq<char>> {
    match s.index_of_first(c) {
        Some(k) => Some(s.skip(k + 1)),
        None => None,
    }
}

/// The text between `[[` at `i` and the closing `]]`.
pub open spec fn link_inner(l: Seq<char>, i: int) -> Seq<char> {
    l.subrange(i + 2, link_end(l, i + 2))
}

/// A wikilink starts at position `i` of line `l`: `[[` outside code, then
/// characters other than brackets and backticks, then `]]`, with a non-empty
/// part before any `|`.
pub open spec fn link_at(l: Seq<char>, i: int) -> bool {
    let e = link_end(l, i + 2);
    &&& 0 <= i && i + 1 < l.len()
    &&& l[i] == '[' && l[i + 1] == '['
    &&& !in_code_span(l, i)
    &&& e + 1 < l.len() && l[e] == ']' && l[e + 1] == ']'
    &&& before_char(link_inner(l, i), '|').len() > 0
}

/// A wikilink as values.
pub struct LinkView {
    pub target: Seq<char>,
    pub alias: Option<Seq<char>>,
    pub section: Option<Seq<char>>,
    pub line: int,
    pub column: int,
}

/// The wikilink at position `i` of line number `line`: the target is what
/// precedes `|` and `#`, the alias what follows `|`, the section what follows
/// `#` in the target.
pub open spec fn link_view(l: Seq<char>, i: int, line: int) -> LinkView {
    let raw = before_char(link_inner(l, i), '|');
    LinkView {
        target: before_char(raw, '#'),
        alias: after_char(link_inner(l, i), '|'),
        section: after_char(raw, '#'),
        line,
        column: i,
    }
}

/// The wikilinks that start among the first `n` positions of `l`, in order.
pub open spec fn links_upto(l: Seq<char>, n: int, line: int) -> Seq<LinkView>
    decreases n,
{
    if n <= 0 {
        seq![]
    } else {
        links_upto(l, n - 1, line) + if link_at(l, n - 1) {
            seq![link_view(l, n - 1, line)]
        } else {
            seq![]
        }
    }
}

/// The wikilinks of the prose lines among the first `n` lines, in order;
/// lines are numbered from 1, columns from 0.
pub open spec fn link_occurrences(lines: Seq<Seq<char>>, n: int) -> Seq<LinkView>
    decreases n,
{
    if n <= 0 {
        seq![]
    } else {
        link_occurrences(lines, n - 1) + if prose_line(lines, n - 1) {
            links_upto(lines[n - 1], lines[n - 1].len() as int, n)
        } else {
            seq![]
        }
    }
}

/// The wikilinks of the document `content`, in order.
pub open spec fn doc_links(content: Seq<char>) -> Seq<LinkView> {
    let lines = split_lines(content);
    link_occurrences(lines, lines.len() as int)
}

/// A reference to another note: `[[target#section|alias]]`.
#[derive(Debug, Clone, PartialEq)]
pub struct Wikilink {
    pub target: String,
    pub alias: Option<String>,
    pub section: Option<String>,
    pub line: usize,
    pub column: usize,
}

impl View for Wikilink {
    type V = LinkView;

    open spec fn view(&self) -> LinkView {
        LinkView {
            target: self.target@,
            alias: self.alias.deep_view(),
            section: self.section.deep_view(),
            line: self.line as int,
            column: self.column as int,
        }
    }
}

/// The wikilinks of a list, as values.
pub open spec fn links_view(v: Seq<Wikilink>) -> Seq<LinkView> {
    v.map_values(|w: Wikilink| w@)
}

/// The characters `l[from..to]`.
pub fn slice_chars(l: &Vec<char>, from: usize, to: usize) -> (r: Vec<char>)
    requires
        from <= to <= l@.len(),
    ensures
        r@ == l@.subrange(from as int, to as int),
{
    let mut out: Vec<char> = Vec::new();
    let mut i: usize = from;
    while i < to
        invariant
            from <= i <= to <= l@.len(),
            out@ == l@.subrange(from as int, i as int),
        decreases to - i,
    {
        out.push(l[i]);
        assert(out@ =~= l@.subrange(from as int, i + 1));
        i = i + 1;
    }
    out
}

/// The part of `s` before the first `c`, and the part after it if any.
fn split_at_char(s: &Vec<char>, c: char) -> (r: (Vec<char>, Option<Vec<char>>))
    ensures
        r.0@ == before_char(s@, c),
        r.1.deep_view() == after_char(s@, c),
{
    match crate::resolve::find_char(s, c) {
        Some(k) => {
            assert(k < s@.len());
            let a = slice_chars(s, 0, k);
            let n = s.len();
            assert(k < n);
            let b = slice_chars(s, k + 1, n);
            assert(a@ =~= s@.take(k as int));
            assert(b@ =~= s@.skip(k + 1));
            assert(Some(b).deep_view() == Some(b@));
            (a, Some(b))
        },
        None => {
            let a = slice_chars(s, 0, s.len());
            assert(a@ =~= s@);
            (a, None)
        },
    }
}

/// End of the run of link characters that starts at `j`.
fn link_end_exec(l: &Vec<char>, j: usize) -> (r: usize)
    requires
        j <= l@.len(),
    ensures
        r as int == link_end(l@, j as int),
        j <= r <= l@.len(),
{
    let mut e: usize = j;
    while e < l.len() && l[e] != '[' && l[e] != ']' && l[e] != '`'
        invariant
            j <= e <= l@.len(),
            link_end(l@, e as int) == link_end(l@, j as int),
        decreases l@.len() - e,
    {
        e = e + 1;
    }
    e
}

/// The wikilink that starts at `i`, if one does.
fn link_at_exec(l: &Vec<char>, i: usize, in_span: bool, line: usize) -> (r: Option<Wikilink>)
    requires
        i < l@.len(),
        in_span == in_code_span(l@, i as int),
    ensures
        r is Some <==> link_at(l@, i as int),
        r matches Some(w) ==> w@ == link_view(l@, i as int, line as int),
{
    if in_span || l.len() - i < 2 || l[i] != '[' || l[i + 1] != '[' {
        return None;
    }
    let e = link_end_exec(l, i + 2);
    if l.len() - e < 2 || l[e] != ']' || l[e + 1] != ']' {
        return None;
    }
    let inner = slice_chars(l, i + 2, e);
    let (raw, alias) = split_at_char(&inner, '|');
    if raw.len() == 0 {
        return None;
    }
    let (target, section) = split_at_char(&raw, '#');
    let ghost av = alias.deep_view();
    let ghost sv = section.deep_view();
    let alias_s: Option<String> = match alias {
        Some(a) => {
            let t = crate::text::string_from_chars(a.as_slice());
            assert(Some(t).deep_view() == Some(t@));
            Some(t)
        },
        None => None,
    };
    let section_s: Option<String> = match section {
        Some(s) => {
            let t = crate::text::string_from_chars(s.as_slice());
            assert(Some(t).deep_view() == Some(t@));
            Some(t)
        },
        None => None,
    };
    assert(alias_s.deep_view() == av);
    assert(section_s.deep_view() == sv);
    let w = Wikilink {
        target: crate::text::string_from_chars(target.as_slice()),
        alias: alias_s,
        section: section_s,
        line,
        column: i,
    };
    assert(w@ == link_view(l@, i as int, line as int));
    Some(w)
}

/// Appends the wikilinks of line `l`, numbered `line`, in order.
fn push_line_links(l: &Vec<char>, line: usize, out: &mut Vec<Wikilink>)
    ensures
        links_view(final(out)@) == links_view(old(out)@) + links_upto(l@, l@.len() as int, line as int),
{
    let mask = code_span_mask(l);
    let mut i: usize = 0;
    while i < l.len()
        invariant
            i <= l@.len(),
            mask@.len() == l@.len(),
            forall|k: int| 0 <= k < l@.len() ==> mask@[k] == in_code_span(l@, k),
            links_view(out@) == links_view(old(out)@) + links_upto(l@, i as int, line as int),
        decreases l@.len() - i,
    {
        let ghost before = links_view(out@);
        match link_at_exec(l, i, mask[i], line) {
            Some(w) => {
                out.push(w);
                assert(links_view(out@) =~= before + seq![link_view(l@, i as int, line as int)]);
            },
            None => {
                assert(links_view(out@) =~= before + seq![]);
            },
        }
        i = i + 1;
    }
}

/// The wikilinks of the prose lines, in document order.
pub fn link_occurrences_of(lines: &Vec<Vec<char>>) -> (r: Vec<Wikilink>)
    ensures
        links_view(r@) == link_occurrences(lines.deep_view(), lines@.len() as int),
{
    let ghost ls = lines.deep_view();
    let mut out: Vec<Wikilink> = Vec::new();
    assert(links_view(out@) =~= seq![]);
    let mut open: Option<char> = None;
    let mut k: usize = 0;
    while k < lines.len()
        invariant
            k <= lines@.len(),
            ls == lines.deep_view(),
            open == open_fence(ls, k as int),
            links_view(out@) == link_occurrences(ls, k as int),
        decreases lines@.len() - k,
    {
        assert(ls[k as int] == lines@[k as int]@);
        let f = fence_kind_of(&lines[k]);
        let ghost before = links_view(out@);
        if f.is_none() && open.is_none() {
            push_line_links(&lines[k], k + 1, &mut out);
        } else {
            assert(links_view(out@) =~= before + seq![]);
        }
        open = step_fence(open, f);
        k = k + 1;
    }
    out
}

} // verus!

verus! {

/// End of the run of `#` that starts at `j`.
pub open spec fn hashes_end(l: Seq<char>, j: int) -> int
    decreases l.len() - j,
{
    if j < 0 || j >= l.len() || l[j] != '#' {
        j
    } else {
        hashes_end(l, j + 1)
    }
}

/// First position at or after `j` that holds no blank.
pub open spec fn skip_blanks(l: Seq<char>, j: int) -> int
    decreases l.len() - j,
{
    if j < 0 || j >= l.len() || !is_blank(l[j]) {
        j
    } else {
        skip_blanks(l, j + 1)
    }
}

/// `e` moved back over the blanks that end `l[lo..e]`.
pub open spec fn back_blanks(l: Seq<char>, lo: int, e: int) -> int
    decreases e - lo,
{
    if e <= lo || e > l.len() || !is_blank(l[e - 1]) {
        e
    } else {
        back_blanks(l, lo, e - 1)
    }
}

/// `e` moved back over the `#` that end `l[lo..e]`.
pub open spec fn back_hashes(l: Seq<char>, lo: int, e: int) -> int
    decreases e - lo,
{
    if e <= lo || e > l.len() || l[e - 1] != '#' {
        e
    } else {
        back_hashes(l, lo, e - 1)
    }
}

/// Bounds of a heading's text in line `l`: after the opening `#` run and the
/// blanks, before a closing `#` run (one that stands alone or after a blank)
/// and the blanks around it.
pub open spec fn heading_bounds(l: Seq<char>) -> (int, int) {
    let a = skip_blanks(l, hashes_end(l, 0));
    let e1 = back_blanks(l, a, l.len() as int);
    let h = back_hashes(l, a, e1);
    let e2 = if h < e1 && (h == a || is_blank(l[h - 1])) {
        back_blanks(l, a, h)
    } else {
        e1
    };
    (a, e2)
}

/// The text of the heading on line `l`.
pub open spec fn heading_text(l: Seq<char>) -> Seq<char> {
    l.subrange(heading_bounds(l).0, heading_bounds(l).1)
}

/// Line `l` is an ATX heading: one to six `#`, a blank, then non-empty text.
pub open spec fn heading_at(l: Seq<char>) -> bool {
    let n = hashes_end(l, 0);
    1 <= n <= 6 && n < l.len() && is_blank(l[n]) && heading_text(l).len() > 0
}

/// A heading as values.
pub struct HeadingView {
    pub level: int,
    pub text: Seq<char>,
    pub line: int,
}

/// The headings of the prose lines among the first `n` lines, in order.
pub open spec fn heading_occurrences(lines: Seq<Seq<char>>, n: int) -> Seq<HeadingView>
    decreases n,
{
    if n <= 0 {
        seq![]
    } else {
        heading_occurrences(lines, n - 1) + if prose_line(lines, n - 1) && heading_at(lines[n - 1]) {
            seq![
                HeadingView {
                    level: hashes_end(lines[n - 1], 0),
                    text: heading_text(lines[n - 1]),
                    line: n,
                },
            ]
        } else {
            seq![]
        }
    }
}

/// The headings of the document `content`, in order.
pub open spec fn doc_headings(content: Seq<char>) -> Seq<HeadingView> {
    let lines = split_lines(content);
    heading_occurrences(lines, lines.len() as int)
}

/// The text of the first level-1 heading, or nothing.
pub open spec fn title_of(hs: Seq<HeadingView>) -> Seq<char>
    decreases hs.len(),
{
    if hs.len() == 0 {
        seq![]
    } else if hs[0].level == 1 {
        hs[0].text
    } else {
        title_of(hs.drop_first())
    }
}

/// A heading: its level (1 to 6), its text and its line (from 1).
#[derive(Debug, Clone, PartialEq)]
pub struct Heading {
    pub level: u8,
    pub text: String,
    pub line: usize,
}

impl View for Heading {
    type V = HeadingView;

    open spec fn view(&self) -> HeadingView {
        HeadingView { level: self.level as int, text: self.text@, line: self.line as int }
    }
}

/// The headings of a list, as values.
pub open spec fn headings_view(v: Seq<Heading>) -> Seq<HeadingView> {
    v.map_values(|h: Heading| h@)
}

fn hashes_end_exec(l: &Vec<char>) -> (r: usize)
    ensures
        r as int == hashes_end(l@, 0),
        r <= l@.len(),
{
    let mut e: usize = 0;
    while e < l.len() && l[e] == '#'
        invariant
            e <= l@.len(),
            hashes_end(l@, e as int) == hashes_end(l@, 0),
        decreases l@.len() - e,
    {
        e = e + 1;
    }
    e
}

fn skip_blanks_exec(l: &Vec<char>, j: usize) -> (r: usize)
    requires
        j <= l@.len(),
    ensures
        r as int == skip_blanks(l@, j as int),
        j <= r <= l@.len(),
{
    let mut e: usize = j;
    while e < l.len() && blank_char(l[e])
        invariant
            j <= e <= l@.len(),
            skip_blanks(l@, e as int) == skip_blanks(l@, j as int),
        decreases l@.len() - e,
    {
        e = e + 1;
    }
    e
}

fn back_blanks_exec(l: &Vec<char>, lo: usize, e: usize) -> (r: usize)
    requires
        lo <= e <= l@.len(),
    ensures
        r as int == back_blanks(l@, lo as int, e as int),
        lo <= r <= e,
{
    let mut k: usize = e;
    while k > lo && blank_char(l[k - 1])
        invariant
            lo <= k <= e <= l@.len(),
            back_blanks(l@, lo as int, k as int) == back_blanks(l@, lo as int, e as int),
        decreases k - lo,
    {
        k = k - 1;
    }
    k
}

fn back_hashes_exec(l: &Vec<char>, lo: usize, e: usize) -> (r: usize)
    requires
        lo <= e <= l@.len(),
    ensures
        r as int == back_hashes(l@, lo as int, e as int),
        lo <= r <= e,
{
    let mut k: usize = e;
    while k > lo && l[k - 1] == '#'
        invariant
            lo <= k <= e <= l@.len(),
            back_hashes(l@, lo as int, k as int) == back_hashes(l@, lo as int, e as int),
        decreases k - lo,
    {
        k = k - 1;
    }
    k
}

/// The heading on line `l`, numbered `line`, if it is one.
fn heading_of_line(l: &Vec<char>, line: usize) -> (r: Option<Heading>)
    ensures
        r is Some <==> heading_at(l@),
        r matches Some(h) ==> h@ == (HeadingView {
            level: hashes_end(l@, 0),
            text: heading_text(l@),
            line: line as int,
        }),
{
    let n = hashes_end_exec(l);
    if n < 1 || n > 6 || n >= l.len() || !blank_char(l[n]) {
        return None;
    }
    let a = skip_blanks_exec(l, n);
    let e1 = back_blanks_exec(l, a, l.len());
    let h = back_hashes_exec(l, a, e1);
    let e2 = if h < e1 && (h == a || blank_char(l[h - 1])) {
        back_blanks_exec(l, a, h)
    } else {
        e1
    };
    assert(heading_bounds(l@) == (a as int, e2 as int));
    if e2 <= a {
        return None;
    }
    let text = substring(l, a, e2);
    Some(Heading { level: n as u8, text, line })
}

/// The headings of the prose lines, in document order.
pub fn heading_occurrences_of(lines: &Vec<Vec<char>>) -> (r: Vec<Heading>)
    ensures
        headings_view(r@) == heading_occurrences(lines.deep_view(), lines@.len() as int),
{
    let ghost ls = lines.deep_view();
    let mut out: Vec<Heading> = Vec::new();
    assert(headings_view(out@) =~= seq![]);
    let mut open: Option<char> = None;
    let mut k: usize = 0;
    while k < lines.len()
        invariant
            k <= lines@.len(),
            ls == lines.deep_view(),
            open == open_fence(ls, k as int),
            headings_view(out@) == heading_occurrences(ls, k as int),
        decreases lines@.len() - k,
    {
        assert(ls[k as int] == lines@[k as int]@);
        let f = fence_kind_of(&lines[k]);
        let ghost before = headings_view(out@);
        let mut pushed = false;
        if f.is_none() && open.is_none() {
            match heading_of_line(&lines[k], k + 1) {
                Some(h) => {
                    out.push(h);
                    pushed = true;
                },
                None => {},
            }
        }
        if pushed {
            assert(headings_view(out@) =~= before + seq![out@[out@.len() - 1]@]);
        } else {
            assert(headings_view(out@) =~= before + seq![]);
        }
        open = step_fence(open, f);
        k = k + 1;
    }
    out
}

/// The text of the first level-1 heading; empty where there is none.
pub fn title_from(hs: &Vec<Heading>) -> (r: String)
    ensures
        r@ == title_of(headings_view(hs@)),
{
    let ghost v = headings_view(hs@);
    assert(v.skip(0) =~= v);
    let mut i: usize = 0;
    while i < hs.len()
        invariant
            i <= hs@.len(),
            v == headings_view(hs@),
            title_of(v.skip(i as int)) == title_of(v),
        decreases hs@.len() - i,
    {
        assert(v.skip(i as int)[0] == hs@[i as int]@);
        if hs[i].level == 1 {
            return hs[i].text.clone();
        }
        assert(v.skip(i as int).drop_first() =~= v.skip(i + 1));
        i = i + 1;
    }
    assert(v.skip(i as int).len() == 0);
    String::new()
}

} // verus!

verus! {

proof fn lemma_concat_contains<A>(a: Seq<A>, b: Seq<A>, x: A)
    requires
        (a + b).contains(x),
    ensures
        a.contains(x) || b.contains(x),
{
    let k = choose|k: int| 0 <= k < (a + b).len() && (a + b)[k] == x;
    if k < a.len() {
        assert(a[k] == x);
    } else {
        assert(b[k - a.len()] == x);
    }
}

proof fn lemma_line_tag_source(l: Seq<char>, n: int, t: Seq<char>)
    requires
        tags_upto(l, n).contains(t),
    ensures
        exists|i: int| 0 <= i < n && tag_at(l, i) && #[trigger] tag_text(l, i) == t,
    decreases n,
{
    if n > 0 {
        let last = if tag_at(l, n - 1) {
            seq![tag_text(l, n - 1)]
        } else {
            seq![]
        };
        lemma_concat_contains(tags_upto(l, n - 1), last, t);
        if tags_upto(l, n - 1).contains(t) {
            lemma_line_tag_source(l, n - 1, t);
        } else {
            assert(last[0] == t);
        }
    }
}

proof fn lemma_doc_tag_source(lines: Seq<Seq<char>>, n: int, t: Seq<char>)
    requires
        tag_occurrences(lines, n).contains(t),
    ensures
        exists|k: int, i: int|
            0 <= k < n && prose_line(lines, k) && tag_at(lines[k], i) && #[trigger] tag_text(lines[k], i) == t,
    decreases n,
{
    if n > 0 {
        let last = if prose_line(lines, n - 1) {
            tags_upto(lines[n - 1], lines[n - 1].len() as int)
        } else {
            seq![]
        };
        lemma_concat_contains(tag_occurrences(lines, n - 1), last, t);
        if tag_occurrences(lines, n - 1).contains(t) {
            lemma_doc_tag_source(lines, n - 1, t);
        } else {
            lemma_line_tag_source(lines[n - 1], lines[n - 1].len() as int, t);
            let i = choose|i: int| 0 <= i < lines[n - 1].len() && tag_at(lines[n - 1], i) && #[trigger] tag_text(lines[n - 1], i) == t;
            assert(tag_text(lines[n - 1], i) == t);
        }
    }
}

/// Code never yields tags: every tag of a document is read at a `#` of a
/// prose line (outside fenced blocks) that lies outside inline code spans,
/// whatever the same text inside code would give.
pub proof fn lemma_tags_come_from_prose(content: Seq<char>, t: Seq<char>)
    requires
        is_doc_tag(content, t),
    ensures
        exists|k: int, i: int|
            0 <= k < split_lines(content).len() && prose_line(split_lines(content), k)
                && !in_code_span(split_lines(content)[k], i) && tag_at(split_lines(content)[k], i)
                && #[trigger] tag_text(split_lines(content)[k], i) == t,
{
    let lines = split_lines(content);
    lemma_doc_tag_source(lines, lines.len() as int, t);
}

proof fn lemma_line_link_source(l: Seq<char>, n: int, line: int, w: LinkView)
    requires
        links_upto(l, n, line).contains(w),
    ensures
        exists|i: int| 0 <= i < n && link_at(l, i) && #[trigger] link_view(l, i, line) == w,
    decreases n,
{
    if n > 0 {
        let last = if link_at(l, n - 1) {
            seq![link_view(l, n - 1, line)]
        } else {
            seq![]
        };
        lemma_concat_contains(links_upto(l, n - 1, line), last, w);
        if links_upto(l, n - 1, line).contains(w) {
            lemma_line_link_source(l, n - 1, line, w);
        } else {
            assert(last[0] == w);
        }
    }
}

proof fn lemma_doc_link_source(lines: Seq<Seq<char>>, n: int, w: LinkView)
    requires
        link_occurrences(lines, n).contains(w),
    ensures
        exists|k: int, i: int|
            0 <= k < n && prose_line(lines, k) && link_at(lines[k], i) && #[trigger] link_view(lines[k], i, k + 1) == w,
    decreases n,
{
    if n > 0 {
        let last = if prose_line(lines, n - 1) {
            links_upto(lines[n - 1], lines[n - 1].len() as int, n)
        } else {
            seq![]
        };
        lemma_concat_contains(link_occurrences(lines, n - 1), last, w);
        if link_occurrences(lines, n - 1).contains(w) {
            lemma_doc_link_source(lines, n - 1, w);
        } else {
            lemma_line_link_source(lines[n - 1], lines[n - 1].len() as int, n, w);
            let i = choose|i: int| 0 <= i < lines[n - 1].len() && link_at(lines[n - 1], i) && #[trigger] link_view(lines[n - 1], i, n) == w;
            assert(link_view(lines[n - 1], i, (n - 1) + 1) == w);
        }
    }
}

/// Code never yields wikilinks: every wikilink of a document is read at a
/// `[[` of a prose line (outside fenced blocks) that lies outside inline code
/// spans.
pub proof fn lemma_links_come_from_prose(content: Seq<char>, w: LinkView)
    requires
        doc_links(content).contains(w),
    ensures
        exists|k: int, i: int|
            0 <= k < split_lines(content).len() && prose_line(split_lines(content), k)
                && !in_code_span(split_lines(content)[k], i) && link_at(split_lines(content)[k], i)
                && #[trigger] link_view(split_lines(content)[k], i, k + 1) == w,
{
    let lines = split_lines(content);
    lemma_doc_link_source(lines, lines.len() as int, w);
}

} // verus!

verus! {

proof fn lemma_skip_blanks(l: Seq<char>, j: int)
    requires
        0 <= j <= l.len(),
    ensures
        j <= skip_blanks(l, j) <= l.len(),
        skip_blanks(l, j) < l.len() ==> !is_blank(l[skip_blanks(l, j)]),
    decreases l.len() - j,
{
    if j < l.len() && is_blank(l[j]) {
        lemma_skip_blanks(l, j + 1);
    }
}

proof fn lemma_back_blanks(l: Seq<char>, lo: int, e: int)
    requires
        0 <= lo <= e <= l.len(),
    ensures
        lo <= back_blanks(l, lo, e) <= e,
        back_blanks(l, lo, e) > lo ==> !is_blank(l[back_blanks(l, lo, e) - 1]),
    decreases e - lo,
{
    if e > lo && is_blank(l[e - 1]) {
        lemma_back_blanks(l, lo, e - 1);
    }
}

proof fn lemma_back_hashes(l: Seq<char>, lo: int, e: int)
    requires
        0 <= lo <= e <= l.len(),
    ensures
        lo <= back_hashes(l, lo, e) <= e,
    decreases e - lo,
{
    if e > lo && l[e - 1] == '#' {
        lemma_back_hashes(l, lo, e - 1);
    }
}

proof fn lemma_hashes_end(l: Seq<char>, j: int)
    requires
        0 <= j <= l.len(),
    ensures
        j <= hashes_end(l, j) <= l.len(),
    decreases l.len() - j,
{
    if j < l.len() && l[j] == '#' {
        lemma_hashes_end(l, j + 1);
    }
}

/// A heading's text is trimmed: it is not empty, and neither its first nor
/// its last character is white space.
pub proof fn lemma_heading_text_trimmed(l: Seq<char>)
    requires
        heading_at(l),
    ensures
        heading_text(l).len() > 0,
        !is_blank(heading_text(l)[0]),
        !is_blank(heading_text(l)[heading_text(l).len() - 1]),
{
    let n = hashes_end(l, 0);
    lemma_hashes_end(l, 0);
    let a = skip_blanks(l, n);
    lemma_skip_blanks(l, n);
    let e1 = back_blanks(l, a, l.len() as int);
    lemma_back_blanks(l, a, l.len() as int);
    let h = back_hashes(l, a, e1);
    lemma_back_hashes(l, a, e1);
    if h < e1 && (h == a || is_blank(l[h - 1])) {
        lemma_back_blanks(l, a, h);
    }
    let (x, y) = heading_bounds(l);
    assert(x == a);
    assert(heading_text(l)[0] == l[a]);
    assert(heading_text(l)[heading_text(l).len() - 1] == l[y - 1]);
}

} // verus!
