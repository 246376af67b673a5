//! Tags: extraction from a note, and the tag index (tag to notes).
use vstd::prelude::*;

use crate::markdown::{all_digits, is_doc_tag, lines_of, tag_occurrences, tag_occurrences_of};
use crate::json::{decode_entries, encode_entries, json_entries, json_text, IndexError};
use crate::pathmap::{
    has_key, insert_sorted, lemma_canonical_unique, lemma_keys_of_related, no_empty_lists, related, PathMap,
};
use crate::resolve::{contains_path, domain_of, domain_of_path};
use crate::text::{chars_of, lemma_take_one_more, seq_lt, strictly_sorted};

verus! {

broadcast use vstd::string::group_string_axioms;

/// Whether every character of `s` is a decimal digit.
pub fn is_number(s: &String) -> (r: bool)
    ensures
        r == all_digits(s@),
{
    let cs = chars_of(s.as_str());
    let mut i: usize = 0;
    while i < cs.len()
        invariant
            i <= cs@.len(),
            cs@ == s@,
            forall|j: int| 0 <= j < i ==> '0' <= #[trigger] cs@[j] && cs@[j] <= '9',
        decreases cs@.len() - i,
    {
        if !('0' <= cs[i] && cs[i] <= '9') {
            return false;
        }
        i = i + 1;
    }
    true
}

/// The tags of the prose of `lines`, sorted, each once, numbers left out.
pub fn tags_of_lines(lines: &Vec<Vec<char>>) -> (r: Vec<String>)
    ensures
        strictly_sorted(r.deep_view()),
        forall|i: int| 0 <= i < r.len() ==> !all_digits(#[trigger] r.deep_view()[i]),
        forall|t: Seq<char>| #[trigger]
            r.deep_view().contains(t) <==> (tag_occurrences(lines.deep_view(), lines@.len() as int).contains(t)
                && !all_digits(t)),
{
    let occ = tag_occurrences_of(lines);
    let ghost ov = occ.deep_view();
    let mut out: Vec<String> = Vec::new();
    let mut i: usize = 0;
    while i < occ.len()
        invariant
            i <= occ@.len(),
            ov == occ.deep_view(),
            strictly_sorted(out.deep_view()),
            forall|t: Seq<char>| #[trigger]
                out.deep_view().contains(t) <==> (ov.take(i as int).contains(t) && !all_digits(t)),
        decreases occ@.len() - i,
    {
        assert(ov[i as int] == occ@[i as int]@);
        if !is_number(&occ[i]) {
            insert_sorted(&mut out, occ[i].clone());
        }
        proof {
            lemma_take_one_more(ov, i as int);
        }
        assert forall|t: Seq<char>| #[trigger]
            out.deep_view().contains(t) <==> (ov.take(i + 1).contains(t) && !all_digits(t)) by {}
        i = i + 1;
    }
    assert(ov.take(occ@.len() as int) =~= ov);
    proof {
        assert forall|k: int| 0 <= k < out.len() implies !all_digits(#[trigger] out.deep_view()[k]) by {
            assert(out.deep_view().contains(out.deep_view()[k]));
        }
    }
    out
}

/// The tags of a note, without their `#`: sorted, each once, numbers left
/// out. Tags inside fenced code blocks and inline code spans are not read.
pub fn extract_tags(content: &str) -> (r: Vec<String>)
    ensures
        strictly_sorted(r.deep_view()),
        forall|i: int| 0 <= i < r.len() ==> !all_digits(#[trigger] r.deep_view()[i]),
        forall|t: Seq<char>| #[trigger] r.deep_view().contains(t) <==> is_doc_tag(content@, t),
{
    let cs = chars_of(content);
    let lines = lines_of(&cs);
    tags_of_lines(&lines)
}

/// A copy of a list of strings.
pub fn clone_strings(v: &Vec<String>) -> (r: Vec<String>)
    ensures
        r.deep_view() == v.deep_view(),
{
    let mut out: Vec<String> = Vec::new();
    let mut i: usize = 0;
    while i < v.len()
        invariant
            i <= v@.len(),
            out.deep_view() == v.deep_view().take(i as int),
        decreases v@.len() - i,
    {
        let ghost before = out.deep_view();
        let c = v[i].clone();
        assert(c@ == v.deep_view()[i as int]);
        out.push(c);
        assert(out.deep_view() =~= before.push(v.deep_view()[i as int]));
        assert(out.deep_view() =~= v.deep_view().take(i + 1));
        i = i + 1;
    }
    assert(v.deep_view().take(v@.len() as int) =~= v.deep_view());
    out
}

/// Among the first `n` notes, the note at path `p` carries tag `t`.
pub open spec fn tagged_in(notes: Seq<(Seq<char>, Seq<char>)>, n: int, t: Seq<char>, p: Seq<char>) -> bool {
    exists|k: int| 0 <= k < n && #[trigger] notes[k].0 == p && is_doc_tag(notes[k].1, t)
}

pub(crate) proof fn lemma_tagged_in_one_more(notes: Seq<(Seq<char>, Seq<char>)>, n: int)
    requires
        0 <= n < notes.len(),
    ensures
        forall|t: Seq<char>, p: Seq<char>| #[trigger]
            tagged_in(notes, n + 1, t, p) <==> (tagged_in(notes, n, t, p) || (p == notes[n].0
                && is_doc_tag(notes[n].1, t))),
{
    assert forall|t: Seq<char>, p: Seq<char>| #[trigger]
        tagged_in(notes, n + 1, t, p) <==> (tagged_in(notes, n, t, p) || (p == notes[n].0
            && is_doc_tag(notes[n].1, t))) by {
        if tagged_in(notes, n + 1, t, p) && !tagged_in(notes, n, t, p) {
            let k = choose|k: int| 0 <= k < n + 1 && #[trigger] notes[k].0 == p && is_doc_tag(notes[k].1, t);
            assert(k == n);
        }
    }
}

/// Records that the note at `path` carries each of `tags`.
pub(crate) fn add_note_tags(map: &mut PathMap, tags: &Vec<String>, path: &String)
    requires
        old(map).wf(),
    ensures
        final(map).wf(),
        forall|t: Seq<char>, p: Seq<char>| #[trigger]
            final(map).has(t, p) <==> (old(map).has(t, p) || (p == path@ && tags.deep_view().contains(t))),
        no_empty_lists(old(map)@) ==> no_empty_lists(final(map)@),
{
    let ghost m0 = *map;
    let ghost dv = tags.deep_view();
    let mut j: usize = 0;
    while j < tags.len()
        invariant
            j <= tags@.len(),
            dv == tags.deep_view(),
            map.wf(),
            no_empty_lists(m0@) ==> no_empty_lists(map@),
            forall|t: Seq<char>, p: Seq<char>| #[trigger]
                map.has(t, p) <==> (m0.has(t, p) || (p == path@ && dv.take(j as int).contains(t))),
        decreases tags@.len() - j,
    {
        map.insert(tags[j].clone(), path.clone());
        proof {
            assert(dv[j as int] == tags@[j as int]@);
            lemma_take_one_more(dv, j as int);
        }
        j = j + 1;
    }
    assert(dv.take(tags@.len() as int) =~= dv);
}

/// The relation that pairs of a key and a list give is the one their values
/// list.
pub proof fn lemma_pairs_related(pairs: Vec<(String, Vec<String>)>)
    ensures
        forall|k: Seq<char>, p: Seq<char>| #[trigger] related(pairs.deep_view(), k, p) <==> exists|i: int|
            0 <= i < pairs.len() && #[trigger] pairs@[i].0@ == k && pairs@[i].1.deep_view().contains(p),
        forall|k: Seq<char>| #[trigger] has_key(pairs.deep_view(), k) <==> exists|i: int|
            0 <= i < pairs.len() && #[trigger] pairs@[i].0@ == k,
{
    let dv = pairs.deep_view();
    assert forall|k: Seq<char>| #[trigger] has_key(dv, k) <==> exists|i: int|
        0 <= i < pairs.len() && #[trigger] pairs@[i].0@ == k by {
        if has_key(dv, k) {
            let i = choose|i: int| 0 <= i < dv.len() && #[trigger] dv[i].0 == k;
            assert(dv[i].0 == pairs@[i].0@);
        }
        if exists|i: int| 0 <= i < pairs.len() && #[trigger] pairs@[i].0@ == k {
            let i = choose|i: int| 0 <= i < pairs.len() && #[trigger] pairs@[i].0@ == k;
            assert(dv[i].0 == pairs@[i].0@);
        }
    }
    assert forall|k: Seq<char>, p: Seq<char>| #[trigger] related(dv, k, p) <==> exists|i: int|
        0 <= i < pairs.len() && #[trigger] pairs@[i].0@ == k && pairs@[i].1.deep_view().contains(p) by {
        if related(dv, k, p) {
            let i = choose|i: int| 0 <= i < dv.len() && #[trigger] dv[i].0 == k && dv[i].1.contains(p);
            assert(dv[i].0 == pairs@[i].0@);
            assert(dv[i].1 == pairs@[i].1.deep_view());
        }
        if exists|i: int| 0 <= i < pairs.len() && #[trigger] pairs@[i].0@ == k && pairs@[i].1.deep_view().contains(p) {
            let i = choose|i: int| 0 <= i < pairs.len() && #[trigger] pairs@[i].0@ == k && pairs@[i].1.deep_view().contains(p);
            assert(dv[i].0 == pairs@[i].0@);
            assert(dv[i].1 == pairs@[i].1.deep_view());
        }
    }
}

/// Saving then loading gives back the same index: where the JSON codec reads
/// back the entries that it wrote for `saved`, an index loaded from that text
/// has the same entries as `saved`, so the same tags, counts and notes.
pub proof fn lemma_tag_index_round_trip(saved: TagIndex, loaded: TagIndex)
    requires
        saved.wf(),
        json_entries(json_text(saved.entries_view())) == Some(saved.entries_view()),
        loaded.wf(),
        forall|t: Seq<char>| #[trigger]
            loaded.has_tag(t) <==> has_key(json_entries(json_text(saved.entries_view()))->0, t),
        forall|t: Seq<char>, p: Seq<char>| #[trigger]
            loaded.has(t, p) <==> related(json_entries(json_text(saved.entries_view()))->0, t, p),
    ensures
        loaded.entries_view() == saved.entries_view(),
        tag_counts(loaded.entries_view()) == tag_counts(saved.entries_view()),
{
    assert forall|k: Seq<char>| has_key(loaded.entries_view(), k) <==> has_key(saved.entries_view(), k) by {
        assert(loaded.has_tag(k) == has_key(loaded.entries_view(), k));
    }
    assert forall|k: Seq<char>, p: Seq<char>|
        related(loaded.entries_view(), k, p) <==> related(saved.entries_view(), k, p) by {
        assert(loaded.has(k, p) == related(loaded.entries_view(), k, p));
    }
    lemma_canonical_unique(loaded.entries_view(), saved.entries_view());
}

/// Rebuilding the index of an unchanged collection gives the same entries,
/// hence the same JSON text.
pub proof fn lemma_tag_index_rebuild_identical(
    notes: Seq<(Seq<char>, Seq<char>)>,
    first: TagIndex,
    second: TagIndex,
)
    requires
        first.built_from(notes),
        second.built_from(notes),
    ensures
        first.entries_view() == second.entries_view(),
        json_text(first.entries_view()) == json_text(second.entries_view()),
{
    assert forall|k: Seq<char>, p: Seq<char>|
        related(first.entries_view(), k, p) <==> related(second.entries_view(), k, p) by {
        assert(first.has(k, p) == related(first.entries_view(), k, p));
        assert(second.has(k, p) == related(second.entries_view(), k, p));
    }
    lemma_keys_of_related(first.entries_view());
    lemma_keys_of_related(second.entries_view());
    assert forall|k: Seq<char>| has_key(first.entries_view(), k) <==> has_key(second.entries_view(), k) by {
        if has_key(first.entries_view(), k) {
            let p = choose|p: Seq<char>| related(first.entries_view(), k, p);
            assert(related(second.entries_view(), k, p));
        }
        if has_key(second.entries_view(), k) {
            let p = choose|p: Seq<char>| related(second.entries_view(), k, p);
            assert(related(first.entries_view(), k, p));
        }
    }
    lemma_canonical_unique(first.entries_view(), second.entries_view());
}

/// `d` lies in one of the `domains`.
pub open spec fn path_in_domains(p: Seq<char>, domains: Seq<Seq<char>>) -> bool {
    domain_of(p) matches Some(d) && domains.contains(d)
}

/// `x` comes before `y` when listing tags by count: larger counts first,
/// equal counts by name.
pub open spec fn count_order(x: (String, usize), y: (String, usize)) -> bool {
    x.1 > y.1 || (x.1 == y.1 && seq_lt(x.0@, y.0@))
}

/// The list is ordered by `count_order`.
pub open spec fn sorted_by_count(s: Seq<(String, usize)>) -> bool {
    forall|i: int, j: int| 0 <= i < j < s.len() ==> count_order(#[trigger] s[i], #[trigger] s[j])
}

/// A list of tags with their counts, as values.
pub open spec fn counts_view(r: Seq<(String, usize)>) -> Seq<(Seq<char>, nat)> {
    r.map_values(|x: (String, usize)| (x.0@, x.1 as nat))
}

/// Each tag of the entries `e` with its number of notes, in order.
pub open spec fn tag_counts(e: Seq<(Seq<char>, Seq<Seq<char>>)>) -> Seq<(Seq<char>, nat)> {
    e.map_values(|x: (Seq<char>, Seq<Seq<char>>)| (x.0, x.1.len()))
}

/// Inserts `item`, whose name follows every name of `out`, at its place in
/// the order by count.
fn insert_by_count(out: &mut Vec<(String, usize)>, item: (String, usize))
    requires
        sorted_by_count(old(out)@),
        forall|a: int| 0 <= a < old(out)@.len() ==> seq_lt((#[trigger] old(out)@[a]).0@, item.0@),
    ensures
        sorted_by_count(final(out)@),
        final(out)@.len() == old(out)@.len() + 1,
        forall|x: (String, usize)| #[trigger]
            final(out)@.contains(x) <==> (old(out)@.contains(x) || x == item),
{
    let ghost o = out@;
    let count = item.1;
    let mut pos: usize = 0;
    while pos < out.len() && out[pos].1 >= count
        invariant
            pos <= o.len(),
            out@ == o,
            forall|a: int| 0 <= a < pos ==> (#[trigger] o[a]).1 >= count,
        decreases o.len() - pos,
    {
        pos = pos + 1;
    }
    out.insert(pos, item);
    let ghost n = out@;
    assert(n =~= o.insert(pos as int, item));
    assert forall|a: int, b: int| 0 <= a < b < n.len() implies count_order(#[trigger] n[a], #[trigger] n[b]) by {
        if a < pos && b == pos {
        } else if a < pos && b > pos {
            assert(n[b] == o[b - 1]);
            assert(o[pos as int].1 < count);
            if b - 1 > pos {
                assert(count_order(o[pos as int], o[b - 1]));
            }
        } else if a == pos {
            assert(n[b] == o[b - 1]);
            assert(o[pos as int].1 < count);
            if b - 1 > pos {
                assert(count_order(o[pos as int], o[b - 1]));
            }
        } else if a > pos {
            assert(n[a] == o[a - 1]);
            assert(n[b] == o[b - 1]);
        }
    }
    assert forall|x: (String, usize)| #[trigger] n.contains(x) <==> (o.contains(x) || x == item) by {
        if n.contains(x) {
            let k = choose|k: int| 0 <= k < n.len() && n[k] == x;
            if k < pos {
                assert(o[k] == x);
            } else if k > pos {
                assert(o[k - 1] == x);
            }
        }
        if o.contains(x) {
            let k = choose|k: int| 0 <= k < o.len() && o[k] == x;
            if k < pos {
                assert(n[k] == x);
            } else {
                assert(n[k + 1] == x);
            }
        }
        if x == item {
            assert(n[pos as int] == x);
        }
    }
}

/// Index from tags to the notes that carry them.
pub struct TagIndex {
    by_tag: PathMap,
}

impl TagIndex {
    /// The index as a relation between tags and note paths, in canonical
    /// form: tags sorted, each with its sorted, non-empty list of notes.
    pub closed spec fn entries_view(&self) -> Seq<(Seq<char>, Seq<Seq<char>>)> {
        self.by_tag@
    }

    pub open spec fn wf(&self) -> bool {
        crate::pathmap::canonical(self.entries_view())
    }

    /// The note at path `p` carries tag `t`.
    pub open spec fn has(&self, t: Seq<char>, p: Seq<char>) -> bool {
        related(self.entries_view(), t, p)
    }

    /// Builds the index from pairs of a tag and note paths; duplicate tags
    /// are merged, and each tag's paths are sorted, each kept once.
    pub fn from_tag_map(by_tag: Vec<(String, Vec<String>)>) -> (r: TagIndex)
        ensures
            r.wf(),
            forall|t: Seq<char>, p: Seq<char>| #[trigger]
                r.has(t, p) <==> exists|i: int| 0 <= i < by_tag.len() && #[trigger] by_tag@[i].0@ == t
                    && by_tag@[i].1.deep_view().contains(p),
            forall|t: Seq<char>| #[trigger]
                r.has_tag(t) <==> exists|i: int| 0 <= i < by_tag.len() && #[trigger] by_tag@[i].0@ == t,
    {
        let map = PathMap::from_pairs(&by_tag);
        let r = TagIndex { by_tag: map };
        assert(r.entries_view() == map@);
        assert forall|t: Seq<char>, p: Seq<char>| #[trigger] r.has(t, p) <==> map.has(t, p) by {}
        assert forall|t: Seq<char>| #[trigger] r.has_tag(t) <==> map.key(t) by {}
        r
    }

    /// The index has an entry for tag `t`, possibly with no note.
    pub open spec fn has_tag(&self, t: Seq<char>) -> bool {
        has_key(self.entries_view(), t)
    }

    /// A builder that collects tag and path pairs.
    pub fn builder() -> (r: TagIndexBuilder)
        ensures
            r.wf(),
            forall|t: Seq<char>, p: Seq<char>| !r.has(t, p),
    {
        TagIndexBuilder::new()
    }

    /// Builds the index of a collection of notes, given as pairs of a note's
    /// path and its content.
    pub fn build_from_vault(notes: &Vec<(String, String)>) -> (r: TagIndex)
        ensures
            r.built_from(notes.deep_view()),
    {
        let mut map = PathMap::new();
        let ghost nd = notes.deep_view();
        let mut k: usize = 0;
        while k < notes.len()
            invariant
                k <= notes@.len(),
                nd == notes.deep_view(),
                map.wf(),
                no_empty_lists(map@),
                forall|t: Seq<char>, p: Seq<char>| #[trigger] map.has(t, p) <==> tagged_in(nd, k as int, t, p),
            decreases notes@.len() - k,
        {
            let tags = extract_tags(notes[k].1.as_str());
            assert(nd[k as int] == (notes@[k as int].0@, notes@[k as int].1@));
            add_note_tags(&mut map, &tags, &notes[k].0);
            proof {
                lemma_tagged_in_one_more(nd, k as int);
            }
            k = k + 1;
        }
        TagIndex::from_path_map(map)
    }

    /// The index over a relation already built.
    pub(crate) fn from_path_map(map: PathMap) -> (r: TagIndex)
        requires
            map.wf(),
        ensures
            r.wf(),
            r.entries_view() == map@,
            forall|t: Seq<char>| #[trigger] r.has_tag(t) <==> map.key(t),
            forall|t: Seq<char>, p: Seq<char>| #[trigger] r.has(t, p) <==> map.has(t, p),
    {
        let r = TagIndex { by_tag: map };
        assert(r.entries_view() == map@);
        assert forall|t: Seq<char>, p: Seq<char>| #[trigger] r.has(t, p) <==> map.has(t, p) by {}
        assert forall|t: Seq<char>| #[trigger] r.has_tag(t) <==> map.key(t) by {}
        r
    }

    /// The index as JSON: one object from each tag to its sorted notes.
    pub fn to_json(&self) -> (r: Result<String, IndexError>)
        ensures
            r is Ok,
            r matches Ok(s) ==> s@ == json_text(self.entries_view()),
    {
        match encode_entries(self.by_tag.entries()) {
            Ok(s) => Ok(s),
            Err(e) => Err(IndexError::Unencodable(e.to_string())),
        }
    }

    /// Reads an index from its JSON text; `Malformed` where the text is not
    /// an object of string arrays.
    pub fn from_json(text: &str) -> (r: Result<TagIndex, IndexError>)
        ensures
            r is Ok <==> json_entries(text@) is Some,
            r matches Ok(t) ==> t.wf() && (forall|tag: Seq<char>, p: Seq<char>| #[trigger]
                t.has(tag, p) <==> related(json_entries(text@)->0, tag, p)) && (forall|tag: Seq<char>|
                #[trigger] t.has_tag(tag) <==> has_key(json_entries(text@)->0, tag)),
            r matches Err(e) ==> e is Malformed,
    {
        match decode_entries(text) {
            Ok(pairs) => {
                let t = TagIndex::from_tag_map(pairs);
                proof {
                    lemma_pairs_related(pairs);
                }
                Ok(t)
            },
            Err(e) => Err(IndexError::Malformed(e.to_string())),
        }
    }

    /// The index relates exactly the tags and notes of `notes`.
    pub open spec fn built_from(&self, notes: Seq<(Seq<char>, Seq<char>)>) -> bool {
        &&& self.wf()
        &&& no_empty_lists(self.entries_view())
        &&& forall|t: Seq<char>, p: Seq<char>| #[trigger] self.has(t, p) <==> tagged_in(notes, notes.len() as int, t, p)
    }

    /// Every tag with its number of notes, sorted by tag.
    pub fn all_tags(&self) -> (r: Vec<(String, usize)>)
        requires
            self.wf(),
        ensures
            counts_view(r@) == tag_counts(self.entries_view()),
    {
        let entries = self.by_tag.entries();
        let mut out: Vec<(String, usize)> = Vec::new();
        let mut i: usize = 0;
        while i < entries.len()
            invariant
                i <= entries@.len(),
                entries.deep_view() == self.entries_view(),
                out@.len() == i,
                forall|k: int|
                    0 <= k < i ==> (#[trigger] out@[k]).0@ == self.entries_view()[k].0 && out@[k].1
                        == self.entries_view()[k].1.len(),
            decreases entries@.len() - i,
        {
            assert(self.entries_view()[i as int].0 == entries@[i as int].0@);
            assert(self.entries_view()[i as int].1.len() == entries@[i as int].1@.len());
            out.push((entries[i].0.clone(), entries[i].1.len()));
            i = i + 1;
        }
        assert(counts_view(out@) =~= tag_counts(self.entries_view()));
        out
    }

    /// Every tag with its number of notes, by number of notes, largest first;
    /// tags with equal numbers keep their order by name.
    pub fn all_tags_by_count(&self) -> (r: Vec<(String, usize)>)
        requires
            self.wf(),
        ensures
            r@.len() == self.entries_view().len(),
            sorted_by_count(r@),
            forall|x: (Seq<char>, nat)| #[trigger]
                counts_view(r@).contains(x) <==> tag_counts(self.entries_view()).contains(x),
    {
        let by_name = self.all_tags();
        let ghost bn = by_name@;
        assert(counts_view(bn) == tag_counts(self.entries_view()));
        assert(counts_view(bn).len() == bn.len());
        assert(tag_counts(self.entries_view()).len() == self.entries_view().len());
        proof {
            assert forall|k: int| 0 <= k < bn.len() implies (#[trigger] bn[k]).0@ == self.entries_view()[k].0
                && bn[k].1 == self.entries_view()[k].1.len() by {
                assert(counts_view(bn)[k] == tag_counts(self.entries_view())[k]);
            }
        }
        let mut out: Vec<(String, usize)> = Vec::new();
        let mut i: usize = 0;
        while i < by_name.len()
            invariant
                i <= bn.len(),
                bn == by_name@,
                bn.len() == self.entries_view().len(),
                counts_view(bn) == tag_counts(self.entries_view()),
                self.wf(),
                forall|k: int|
                    0 <= k < bn.len() ==> (#[trigger] bn[k]).0@ == self.entries_view()[k].0 && bn[k].1
                        == self.entries_view()[k].1.len(),
                out@.len() == i,
                sorted_by_count(out@),
                forall|x: (String, usize)| #[trigger] out@.contains(x) <==> bn.take(i as int).contains(x),
            decreases bn.len() - i,
        {
            proof {
                assert forall|a: int| 0 <= a < out@.len() implies seq_lt(
                    (#[trigger] out@[a]).0@,
                    bn[i as int].0@,
                ) by {
                    assert(out@.contains(out@[a]));
                    let k = choose|k: int| 0 <= k < i && #[trigger] bn.take(i as int)[k] == out@[a];
                    assert(bn[k] == out@[a]);
                    assert(seq_lt(self.entries_view()[k].0, self.entries_view()[i as int].0));
                }
                lemma_take_one_more(bn, i as int);
            }
            insert_by_count(&mut out, (by_name[i].0.clone(), by_name[i].1));
            i = i + 1;
        }
        proof {
            let o = out@;
            assert(bn.take(bn.len() as int) =~= bn);
            assert forall|x: (Seq<char>, nat)| #[trigger]
                counts_view(o).contains(x) <==> counts_view(bn).contains(x) by {
                if counts_view(o).contains(x) {
                    let a = choose|a: int| 0 <= a < o.len() && counts_view(o)[a] == x;
                    assert(o.contains(o[a]));
                    let k = choose|k: int| 0 <= k < bn.len() && bn[k] == o[a];
                    assert(counts_view(bn)[k] == x);
                }
                if counts_view(bn).contains(x) {
                    let k = choose|k: int| 0 <= k < bn.len() && counts_view(bn)[k] == x;
                    assert(bn.contains(bn[k]));
                    assert(bn.take(bn.len() as int).contains(bn[k]));
                    assert(o.contains(bn[k]));
                    let a = choose|a: int| 0 <= a < o.len() && o[a] == bn[k];
                    assert(counts_view(o)[a] == x);
                }
            }
        }
        out
    }

    /// The paths of the notes that carry `tag`, sorted; empty where no note
    /// does.
    pub fn notes_with_tag(&self, tag: &str) -> (r: Vec<String>)
        requires
            self.wf(),
        ensures
            strictly_sorted(r.deep_view()),
            forall|p: Seq<char>| #[trigger] r.deep_view().contains(p) <==> self.has(tag@, p),
    {
        match self.by_tag.get(tag) {
            Some(paths) => {
                let r = clone_strings(paths);
                assert(self.entries_view() == self.by_tag@);
                assert(r.deep_view() == paths.deep_view());
                assert forall|p: Seq<char>| #[trigger] r.deep_view().contains(p) <==> self.has(tag@, p) by {
                    assert(paths.deep_view().contains(p) <==> self.by_tag.has(tag@, p));
                    assert(self.by_tag.has(tag@, p) == self.has(tag@, p));
                }
                r
            },
            None => {
                assert(self.entries_view() == self.by_tag@);
                let r: Vec<String> = Vec::new();
                assert(r.deep_view() =~= Seq::<Seq<char>>::empty());
                assert forall|p: Seq<char>| #[trigger] r.deep_view().contains(p) <==> self.has(tag@, p) by {
                    assert(!self.by_tag.has(tag@, p));
                }
                r
            },
        }
    }

    /// The index restricted to the notes of the given domains; tags left
    /// with no note are dropped. Root notes belong to no domain.
    pub fn filter_by_domains(&self, domains: &Vec<String>) -> (r: PathMap)
        requires
            self.wf(),
        ensures
            r.wf(),
            no_empty_lists(r@),
            forall|t: Seq<char>, p: Seq<char>| #[trigger]
                r.has(t, p) <==> self.has(t, p) && path_in_domains(p, domains.deep_view()),
    {
        let entries = self.by_tag.entries();
        let mut out = PathMap::new();
        let mut i: usize = 0;
        while i < entries.len()
            invariant
                i <= entries@.len(),
                entries.deep_view() == self.entries_view(),
                self.wf(),
                out.wf(),
                no_empty_lists(out@),
                forall|t: Seq<char>, p: Seq<char>| #[trigger]
                    out.has(t, p) <==> (related(self.entries_view().take(i as int), t, p)
                        && path_in_domains(p, domains.deep_view())),
            decreases entries@.len() - i,
        {
            let paths = &entries[i].1;
            let ghost ev = self.entries_view();
            assert(ev[i as int].0 == entries@[i as int].0@);
            assert(ev[i as int].1 == paths.deep_view());
            let mut j: usize = 0;
            while j < paths.len()
                invariant
                    i < entries@.len(),
                    j <= paths@.len(),
                    ev == self.entries_view(),
                    ev[i as int].0 == entries@[i as int].0@,
                    ev[i as int].1 == paths.deep_view(),
                    out.wf(),
                    no_empty_lists(out@),
                    forall|t: Seq<char>, p: Seq<char>| #[trigger]
                        out.has(t, p) <==> ((related(ev.take(i as int), t, p) || (t == ev[i as int].0
                            && paths.deep_view().take(j as int).contains(p)))
                            && path_in_domains(p, domains.deep_view())),
                decreases paths@.len() - j,
            {
                let ghost dv = paths.deep_view();
                assert(dv[j as int] == paths@[j as int]@);
                let keep = match domain_of_path(paths[j].as_str()) {
                    Some(d) => contains_path(domains, &d),
                    None => false,
                };
                if keep {
                    out.insert(entries[i].0.clone(), paths[j].clone());
                }
                proof {
                    lemma_take_one_more(dv, j as int);
                }
                j = j + 1;
            }
            proof {
                let dv = paths.deep_view();
                assert(dv.take(paths@.len() as int) =~= dv);
                assert forall|t: Seq<char>, p: Seq<char>| #[trigger]
                    related(ev.take(i + 1), t, p) <==> (related(ev.take(i as int), t, p) || (t
                        == ev[i as int].0 && dv.contains(p))) by {
                    if related(ev.take(i + 1), t, p) {
                        let k = choose|k: int| 0 <= k < ev.take(i + 1).len() && #[trigger] ev.take(i + 1)[k].0 == t && ev.take(i + 1)[k].1.contains(p);
                        if k < i {
                            assert(ev.take(i as int)[k] == ev[k]);
                        }
                    }
                    if related(ev.take(i as int), t, p) {
                        let k = choose|k: int| 0 <= k < ev.take(i as int).len() && #[trigger] ev.take(i as int)[k].0 == t && ev.take(i as int)[k].1.contains(p);
                        assert(ev.take(i + 1)[k] == ev[k]);
                    }
                    if t == ev[i as int].0 && dv.contains(p) {
                        assert(ev.take(i + 1)[i as int] == ev[i as int]);
                    }
                }
            }
            i = i + 1;
        }
        proof {
            assert(self.entries_view().take(entries@.len() as int) =~= self.entries_view());
        }
        out
    }
}

/// Collects tag and path pairs, then builds a `TagIndex`.
pub struct TagIndexBuilder {
    map: PathMap,
}

impl TagIndexBuilder {
    pub closed spec fn wf(&self) -> bool {
        self.map.wf()
    }

    /// The pairs collected so far hold `(t, p)`.
    pub closed spec fn has(&self, t: Seq<char>, p: Seq<char>) -> bool {
        self.map.has(t, p)
    }

    /// An empty builder.
    pub fn new() -> (r: TagIndexBuilder)
        ensures
            r.wf(),
            forall|t: Seq<char>, p: Seq<char>| !r.has(t, p),
    {
        TagIndexBuilder { map: PathMap::new() }
    }

    /// Records that the note at `path` carries `tag`.
    pub fn add(&mut self, tag: &str, path: &str)
        requires
            old(self).wf(),
        ensures
            final(self).wf(),
            forall|t: Seq<char>, p: Seq<char>| #[trigger]
                final(self).has(t, p) <==> (old(self).has(t, p) || (t == tag@ && p == path@)),
    {
        self.map.insert(tag.to_string(), path.to_string());
    }

    /// The index of the collected pairs.
    pub fn build(self) -> (r: TagIndex)
        requires
            self.wf(),
        ensures
            r.wf(),
            forall|t: Seq<char>, p: Seq<char>| #[trigger] r.has(t, p) <==> self.has(t, p),
    {
        TagIndex { by_tag: self.map }
    }
}

impl Default for TagIndexBuilder {
    fn default() -> (r: TagIndexBuilder)
        ensures
            r.wf(),
            forall|t: Seq<char>, p: Seq<char>| !r.has(t, p),
    {
        TagIndexBuilder::new()
    }
}

} // verus!
