//! Resolution of a wikilink target to the path of a note of the collection.
//!
//! Path-style targets (holding a `/`) are tried from the collection root
//! first, then inside the source note's domain. Bare names are tried inside
//! the source's domain first, then at the root; they never reach into another
//! domain.
use vstd::prelude::*;

use crate::text::{chars_of, string_from_chars, substring};

verus! {

broadcast use vstd::string::group_string_axioms;

/// The extension of note files.
pub open spec fn md_ext() -> Seq<char> {
    seq!['.', 'm', 'd']
}

/// `t.md`: the target taken as a path from the collection root.
pub open spec fn root_candidate(t: Seq<char>) -> Seq<char> {
    t + md_ext()
}

/// `d/t.md`: the target taken inside domain `d`.
pub open spec fn domain_candidate(d: Seq<char>, t: Seq<char>) -> Seq<char> {
    d + seq!['/'] + t + md_ext()
}

/// The domain of a note path: the text before its first `/`. A path without
/// `/` lies at the root and has no domain.
pub open spec fn domain_of(p: Seq<char>) -> Option<Seq<char>> {
    match p.index_of_first('/') {
        Some(i) => Some(p.take(i)),
        None => None,
    }
}

/// The note that `target`, written in note `source`, refers to among the
/// note paths `known`; `None` where no candidate is a known note.
pub open spec fn resolve_spec(target: Seq<char>, source: Seq<char>, known: Seq<Seq<char>>) -> Option<
    Seq<char>,
> {
    let root = root_candidate(target);
    if target.contains('/') {
        if known.contains(root) {
            Some(root)
        } else {
            match domain_of(source) {
                Some(d) => if known.contains(domain_candidate(d, target)) {
                    Some(domain_candidate(d, target))
                } else {
                    None
                },
                None => None,
            }
        }
    } else {
        match domain_of(source) {
            Some(d) => if known.contains(domain_candidate(d, target)) {
                Some(domain_candidate(d, target))
            } else if known.contains(root) {
                Some(root)
            } else {
                None
            },
            None => if known.contains(root) {
                Some(root)
            } else {
                None
            },
        }
    }
}

/// Resolution depends on its three inputs alone: equal inputs give equal
/// results.
pub proof fn lemma_resolve_pure(
    t1: Seq<char>,
    s1: Seq<char>,
    k1: Seq<Seq<char>>,
    t2: Seq<char>,
    s2: Seq<char>,
    k2: Seq<Seq<char>>,
)
    requires
        t1 == t2,
        s1 == s2,
        k1 == k2,
    ensures
        resolve_spec(t1, s1, k1) == resolve_spec(t2, s2, k2),
{
}

/// A path-style target that names a note from the root resolves to that note,
/// whatever note the source's domain also offers.
pub proof fn lemma_path_style_prefers_root(target: Seq<char>, source: Seq<char>, known: Seq<Seq<char>>)
    requires
        target.contains('/'),
        known.contains(root_candidate(target)),
    ensures
        resolve_spec(target, source, known) == Some(root_candidate(target)),
{
}

/// A bare name resolves inside the source's own domain `d` whenever `d` holds
/// a note of that name, even where other domains hold one too.
pub proof fn lemma_bare_name_same_domain(
    target: Seq<char>,
    source: Seq<char>,
    known: Seq<Seq<char>>,
    d: Seq<char>,
)
    requires
        !target.contains('/'),
        domain_of(source) == Some(d),
        known.contains(domain_candidate(d, target)),
    ensures
        resolve_spec(target, source, known) == Some(domain_candidate(d, target)),
{
}

/// A bare name resolves only to a root note or to a note of the source's own
/// domain: never into another domain.
pub proof fn lemma_bare_name_stays_in_domain(
    target: Seq<char>,
    source: Seq<char>,
    known: Seq<Seq<char>>,
)
    requires
        !target.contains('/'),
    ensures
        resolve_spec(target, source, known) matches Some(p) ==> p == root_candidate(target) || (
        domain_of(source) is Some && p == domain_candidate(domain_of(source)->0, target)),
{
}

/// Index of the first `c` in `s`, if any.
pub fn find_char(s: &Vec<char>, c: char) -> (r: Option<usize>)
    ensures
        r matches Some(i) ==> i < s@.len() && s@.index_of_first(c) == Some(i as int),
        r is None ==> s@.index_of_first(c) is None,
{
    proof {
        s@.index_of_first_ensures(c);
    }
    let mut i: usize = 0;
    while i < s.len()
        invariant
            i <= s@.len(),
            forall|j: int| 0 <= j < i ==> s@[j] != c,
        decreases s@.len() - i,
    {
        if s[i] == c {
            proof {
                s@.index_of_first_ensures(c);
                match s@.index_of_first(c) {
                    Some(k) => {
                        if k < i {
                            assert(s@[k] != c);
                        } else if k > i {
                            assert(s@[i as int] == c);
                        }
                    },
                    None => {
                        assert(s@.contains(c));
                    },
                }
            }
            return Some(i);
        }
        i = i + 1;
    }
    proof {
        s@.index_of_first_ensures(c);
        if s@.contains(c) {
            let k = choose|k: int| 0 <= k < s@.len() && s@[k] == c;
        }
    }
    None
}

/// Whether the list of note paths holds `p`.
pub fn contains_path(known: &Vec<String>, p: &String) -> (r: bool)
    ensures
        r == known.deep_view().contains(p@),
{
    let mut i: usize = 0;
    while i < known.len()
        invariant
            i <= known@.len(),
            forall|j: int| 0 <= j < i ==> known.deep_view()[j] != p@,
        decreases known@.len() - i,
    {
        if known[i] == *p {
            assert(known.deep_view()[i as int] == p@);
            return true;
        }
        i = i + 1;
    }
    false
}

/// The domain of a note path, as a string.
pub fn domain_of_path(p: &str) -> (r: Option<String>)
    ensures
        r.deep_view() == domain_of(p@),
{
    let cs = chars_of(p);
    match find_char(&cs, '/') {
        Some(i) => {
            let d = substring(&cs, 0, i);
            assert(cs@.take(i as int) =~= cs@.subrange(0, i as int));
            Some(d)
        },
        None => None,
    }
}

/// `prefix` followed by `t` and the note extension.
fn with_md(prefix: &Vec<char>, t: &Vec<char>) -> (r: String)
    ensures
        r@ == prefix@ + t@ + md_ext(),
{
    let mut cs: Vec<char> = Vec::new();
    let mut i: usize = 0;
    while i < prefix.len()
        invariant
            i <= prefix@.len(),
            cs@ == prefix@.take(i as int),
        decreases prefix@.len() - i,
    {
        cs.push(prefix[i]);
        assert(cs@ =~= prefix@.take(i + 1));
        i = i + 1;
    }
    assert(prefix@.take(prefix@.len() as int) =~= prefix@);
    let mut j: usize = 0;
    while j < t.len()
        invariant
            j <= t@.len(),
            cs@ == prefix@ + t@.take(j as int),
        decreases t@.len() - j,
    {
        cs.push(t[j]);
        assert(cs@ =~= prefix@ + t@.take(j + 1));
        j = j + 1;
    }
    assert(t@.take(t@.len() as int) =~= t@);
    cs.push('.');
    cs.push('m');
    cs.push('d');
    assert(cs@ =~= prefix@ + t@ + md_ext());
    string_from_chars(cs.as_slice())
}

/// Resolves the wikilink target `target`, written in the note at path
/// `source`, against the paths of all notes of the collection.
pub fn resolve_target(target: &str, source: &str, known: &Vec<String>) -> (r: Option<String>)
    ensures
        r.deep_view() == resolve_spec(target@, source@, known.deep_view()),
{
    let t = chars_of(target);
    let no_prefix: Vec<char> = Vec::new();
    let root = with_md(&no_prefix, &t);
    assert(root@ =~= root_candidate(target@));
    let domain = domain_of_path(source);
    let domain_cand: Option<String> = match &domain {
        Some(d) => {
            let mut dc = chars_of(d.as_str());
            dc.push('/');
            let c = with_md(&dc, &t);
            assert(c@ =~= domain_candidate(d@, target@));
            Some(c)
        },
        None => None,
    };
    if find_char(&t, '/').is_some() {
        proof {
            target@.index_of_first_ensures('/');
        }
        if contains_path(known, &root) {
            return Some(root);
        }
        match domain_cand {
            Some(c) => {
                if contains_path(known, &c) {
                    Some(c)
                } else {
                    None
                }
            },
            None => None,
        }
    } else {
        proof {
            target@.index_of_first_ensures('/');
        }
        match domain_cand {
            Some(c) => {
                if contains_path(known, &c) {
                    return Some(c);
                }
            },
            None => {},
        }
        if contains_path(known, &root) {
            Some(root)
        } else {
            None
        }
    }
}

} // verus!
