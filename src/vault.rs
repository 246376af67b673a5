//! A vault: a folder tree of notes, grouped in domains (its top-level
//! folders). The folder walk itself is done by the caller; this module holds
//! the rules it applies.
use vstd::prelude::*;

use crate::markdown::{back_blanks, blank_char, hashes_end, lines_of, skip_blanks, split_lines};
use crate::resolve::{domain_of, domain_of_path};
use crate::text::{chars_of, str_eq, substring};

verus! {

/// An open vault: its root folder and its name.
#[derive(Debug, Clone, PartialEq)]
pub struct Vault {
    pub root: String,
    pub name: String,
}

/// A top-level folder of a vault, with its number of notes.
#[derive(Debug, Clone, PartialEq)]
pub struct Domain {
    pub name: String,
    pub note_count: usize,
}

/// A note: its path within the vault, its file name, and its title (first
/// `# ` heading, or the file name without extension).
#[derive(Debug, Clone, PartialEq)]
pub struct Note {
    pub path: String,
    pub filename: String,
    pub title: String,
}

/// A folder whose name starts with `.` or `_` is not a domain.
pub fn is_excluded_domain(name: &str) -> (r: bool)
    ensures
        r == (name@.len() > 0 && (name@[0] == '.' || name@[0] == '_')),
{
    let cs = chars_of(name);
    cs.len() > 0 && (cs[0] == '.' || cs[0] == '_')
}

/// Description files and files whose name starts with `.` or `_` are not
/// notes.
pub fn is_metadata_file(filename: &str) -> (r: bool)
    ensures
        r == ((filename@.len() > 0 && (filename@[0] == '.' || filename@[0] == '_')) || filename@
            == "description.md"@),
{
    is_excluded_domain(filename) || str_eq(filename, "description.md")
}

/// The note at `path` lies in `domain`: its first path segment is `domain`.
/// Root notes lie in no domain.
pub fn path_in_domain(path: &str, domain: &str) -> (r: bool)
    ensures
        r == (domain_of(path@) == Some(domain@)),
{
    match domain_of_path(path) {
        Some(d) => str_eq(d.as_str(), domain),
        None => false,
    }
}

/// Number of decimal digits of `n`.
pub open spec fn decimal_len(n: nat) -> nat
    decreases n,
{
    if n < 10 {
        1
    } else {
        1 + decimal_len(n / 10)
    }
}

/// Width of the line-number column for `line_count` lines: the digits of
/// the count, and at least 6.
pub fn line_number_width(line_count: usize) -> (r: usize)
    ensures
        r == if decimal_len(line_count as nat) > 6 {
            decimal_len(line_count as nat)
        } else {
            6
        },
{
    let mut digits: usize = 1;
    let mut n: usize = line_count;
    while n >= 10
        invariant
            digits + decimal_len(n as nat) == 1 + decimal_len(line_count as nat),
            digits + n <= 1 + line_count,
            decimal_len(n as nat) >= 1,
        decreases n,
    {
        n = n / 10;
        digits = digits + 1;
    }
    if digits > 6 {
        digits
    } else {
        6
    }
}

/// The title that line `l` gives: after blanks, `# ` and then non-empty
/// text, which is returned without surrounding blanks.
pub open spec fn title_in_line(l: Seq<char>) -> Option<Seq<char>> {
    let a = skip_blanks(l, 0);
    let e = back_blanks(l, a, l.len() as int);
    if e - a >= 2 && l[a] == '#' && l[a + 1] == ' ' {
        let b = skip_blanks(l, a + 2);
        if b < e {
            Some(l.subrange(b, e))
        } else {
            None
        }
    } else {
        None
    }
}

/// The first title among lines `k..n` of `lines`.
pub open spec fn first_title_from(lines: Seq<Seq<char>>, k: int, n: int) -> Option<Seq<char>>
    decreases n - k,
{
    if k >= n || k >= lines.len() || k < 0 {
        None
    } else {
        match title_in_line(lines[k]) {
            Some(t) => Some(t),
            None => first_title_from(lines, k + 1, n),
        }
    }
}

/// The title of a note's content: the first `# ` heading among its first
/// twenty lines.
pub fn first_heading_title(content: &str) -> (r: Option<String>)
    ensures
        r.deep_view() == first_title_from(split_lines(content@), 0, 20),
{
    let cs = chars_of(content);
    let lines = lines_of(&cs);
    let ghost ls = lines.deep_view();
    let mut k: usize = 0;
    while k < lines.len() && k < 20
        invariant
            k <= 20,
            k <= lines@.len(),
            ls == lines.deep_view(),
            ls == split_lines(content@),
            first_title_from(ls, k as int, 20) == first_title_from(ls, 0, 20),
        decreases lines@.len() - k,
    {
        let l = &lines[k];
        assert(ls[k as int] == l@);
        let a = skip_blanks_in(l, 0);
        let e = back_blanks_in(l, a, l.len());
        if e - a >= 2 && l[a] == '#' && l[a + 1] == ' ' {
            let b = skip_blanks_in(l, a + 2);
            if b < e {
                let t = substring(l, b, e);
                assert(Some(t).deep_view() == Some(t@));
                return Some(t);
            }
        }
        k = k + 1;
    }
    None
}

fn skip_blanks_in(l: &Vec<char>, j: usize) -> (r: usize)
    requires
        j <= l@.len(),
    ensures
        r as int == skip_blanks(l@, j as int),
        j <= r <= l@.len(),
{
    let mut e: usize = j;
    while e < l.len() && blank_char(l[e])
        invariant
            j <= e <= l@.len(),
            skip_blanks(l@, e as int) == skip_blanks(l@, j as int),
        decreases l@.len() - e,
    {
        e = e + 1;
    }
    e
}

fn back_blanks_in(l: &Vec<char>, lo: usize, e: usize) -> (r: usize)
    requires
        lo <= e <= l@.len(),
    ensures
        r as int == back_blanks(l@, lo as int, e as int),
        lo <= r <= e,
{
    let mut k: usize = e;
    while k > lo && blank_char(l[k - 1])
        invariant
            lo <= k <= e <= l@.len(),
            back_blanks(l@, lo as int, k as int) == back_blanks(l@, lo as int, e as int),
        decreases k - lo,
    {
        k = k - 1;
    }
    k
}

/// The outline entry of line `l`: a line that starts with one to six `#`
/// and a space gives itself without surrounding blanks, indented by two
/// spaces per level below the first.
pub open spec fn outline_entry(l: Seq<char>) -> Option<Seq<char>> {
    let n = hashes_end(l, 0);
    if 1 <= n <= 6 && n < l.len() && l[n] == ' ' {
        let a = skip_blanks(l, 0);
        let e = back_blanks(l, a, l.len() as int);
        Some(Seq::new(2 * (n - 1) as nat, |i: int| ' ') + l.subrange(a, e))
    } else {
        None
    }
}

/// The outline of a note: each heading line with its line number (from 1),
/// indented by level.
pub fn outline(content: &str) -> (r: Vec<(usize, String)>)
    ensures
        forall|i: int| 0 <= i < r@.len() ==> (#[trigger] r@[i]).0 >= 1 && r@[i].0 <= split_lines(content@).len()
            && outline_entry(split_lines(content@)[r@[i].0 - 1]) == Some(r@[i].1@),
        forall|k: int| 0 <= k < split_lines(content@).len() && (#[trigger] outline_entry(split_lines(content@)[k])) is Some
            ==> exists|i: int| 0 <= i < r@.len() && r@[i].0 == k + 1,
        forall|i: int, j: int| 0 <= i < j < r@.len() ==> (#[trigger] r@[i]).0 < (#[trigger] r@[j]).0,
{
    let cs = chars_of(content);
    let lines = lines_of(&cs);
    let ghost ls = lines.deep_view();
    let mut out: Vec<(usize, String)> = Vec::new();
    let mut k: usize = 0;
    while k < lines.len()
        invariant
            k <= lines@.len(),
            ls == lines.deep_view(),
            ls == split_lines(content@),
            forall|i: int| 0 <= i < out@.len() ==> (#[trigger] out@[i]).0 >= 1 && out@[i].0 <= k
                && outline_entry(ls[out@[i].0 - 1]) == Some(out@[i].1@),
            forall|m: int| 0 <= m < k && (#[trigger] outline_entry(ls[m])) is Some ==> exists|i: int|
                0 <= i < out@.len() && out@[i].0 == m + 1,
            forall|i: int, j: int| 0 <= i < j < out@.len() ==> (#[trigger] out@[i]).0 < (#[trigger] out@[j]).0,
        decreases lines@.len() - k,
    {
        let l = &lines[k];
        assert(ls[k as int] == l@);
        let ghost before = out@;
        let mut n: usize = 0;
        while n < l.len() && l[n] == '#'
            invariant
                n <= l@.len(),
                hashes_end(l@, n as int) == hashes_end(l@, 0),
            decreases l@.len() - n,
        {
            n = n + 1;
        }
        if 1 <= n && n <= 6 && n < l.len() && l[n] == ' ' {
            let a = skip_blanks_in(l, 0);
            let e = back_blanks_in(l, a, l.len());
            let mut text: Vec<char> = Vec::new();
            let mut s: usize = 0;
            while s < 2 * (n - 1)
                invariant
                    1 <= n <= 6,
                    s <= 2 * (n - 1),
                    text@ == Seq::new(s as nat, |i: int| ' '),
                decreases 2 * (n - 1) - s,
            {
                text.push(' ');
                assert(text@ =~= Seq::new((s + 1) as nat, |i: int| ' '));
                s = s + 1;
            }
            let mut p: usize = a;
            while p < e
                invariant
                    1 <= n <= 6,
                    a <= p <= e <= l@.len(),
                    text@ == Seq::new(2 * (n - 1) as nat, |i: int| ' ') + l@.subrange(a as int, p as int),
                decreases e - p,
            {
                text.push(l[p]);
                assert(text@ =~= Seq::new(2 * (n - 1) as nat, |i: int| ' ') + l@.subrange(a as int, p + 1));
                p = p + 1;
            }
            let t = crate::text::string_from_chars(text.as_slice());
            out.push((k + 1, t));
            proof {
                assert forall|m: int| 0 <= m < k + 1 && (#[trigger] outline_entry(ls[m])) is Some implies exists|i: int|
                    0 <= i < out@.len() && out@[i].0 == m + 1 by {
                    if m < k {
                        let i = choose|i: int| 0 <= i < before.len() && before[i].0 == m + 1;
                        assert(out@[i] == before[i]);
                    } else {
                        assert(out@[out@.len() - 1].0 == m + 1);
                    }
                }
            }
        } else {
            assert(outline_entry(ls[k as int]) is None);
        }
        k = k + 1;
    }
    out
}

} // verus!
