//! The link index: for each note, the notes it links to (forward) and the
//! notes that link to it (backward).
use vstd::prelude::*;

use crate::markdown::{doc_links, links_view, LinkView, Wikilink};
use crate::parser::TreeSitterParser;
use crate::json::{decode_entries, encode_entries, json_entries, json_text, IndexError};
use crate::pathmap::{
    canonical, has_key, lemma_canonical_unique, lemma_keys_of_related, no_empty_lists, related, PathMap,
};
use crate::resolve::{resolve_spec, resolve_target};
use crate::text::{chars_of, strictly_sorted};

verus! {

/// A wikilink target names a note: it has no extension, or the note
/// extension `.md`. Targets with another extension (images, attachments) do
/// not.
pub open spec fn should_index(t: Seq<char>) -> bool {
    !t.contains('.') || (t.len() >= 3 && t.subrange(t.len() - 3, t.len() as int) == seq!['.', 'm', 'd'])
}

/// Whether a wikilink target names a note rather than another kind of file.
pub fn should_index_wikilink(target: &str) -> (r: bool)
    ensures
        r == should_index(target@),
{
    let cs = chars_of(target);
    let n = cs.len();
    let mut i: usize = 0;
    let mut has_dot = false;
    while i < n
        invariant
            i <= n == cs@.len(),
            has_dot == cs@.take(i as int).contains('.'),
        decreases n - i,
    {
        proof {
            crate::text::lemma_take_one_more(cs@, i as int);
        }
        if cs[i] == '.' {
            has_dot = true;
        }
        i = i + 1;
    }
    assert(cs@.take(n as int) =~= cs@);
    if !has_dot {
        return true;
    }
    let r = n >= 3 && cs[n - 3] == '.' && cs[n - 2] == 'm' && cs[n - 1] == 'd';
    proof {
        if n >= 3 {
            if r {
                assert(cs@.subrange(n - 3, n as int) =~= seq!['.', 'm', 'd']);
            } else {
                if cs@.subrange(n - 3, n as int) == seq!['.', 'm', 'd'] {
                    assert(cs@.subrange(n - 3, n as int)[0] == cs@[n - 3]);
                    assert(cs@.subrange(n - 3, n as int)[1] == cs@[n - 2]);
                    assert(cs@.subrange(n - 3, n as int)[2] == cs@[n - 1]);
                }
            }
        }
    }
    r
}

/// The paths of a collection of notes, given as pairs of path and content.
pub open spec fn note_paths(notes: Seq<(Seq<char>, Seq<char>)>) -> Seq<Seq<char>> {
    notes.map_values(|n: (Seq<char>, Seq<char>)| n.0)
}

/// Link `w`, written in the note at `source`, names a note and resolves to `t`.
pub open spec fn link_resolves_to(w: LinkView, source: Seq<char>, known: Seq<Seq<char>>, t: Seq<char>) -> bool {
    should_index(w.target) && resolve_spec(w.target, source, known) == Some(t)
}

/// Link `w` names a note and resolves to none.
pub open spec fn link_unresolved(w: LinkView, source: Seq<char>, known: Seq<Seq<char>>) -> bool {
    should_index(w.target) && resolve_spec(w.target, source, known) is None
}

/// Among the first `n` of `links`, some link resolves to `t`.
pub open spec fn some_link_to(links: Seq<LinkView>, n: int, source: Seq<char>, known: Seq<Seq<char>>, t: Seq<char>) -> bool {
    exists|j: int| 0 <= j < n && #[trigger] link_resolves_to(links[j], source, known, t)
}

/// How many of the first `n` of `links` name a note and resolve to none.
pub open spec fn unresolved_count(links: Seq<LinkView>, n: int, source: Seq<char>, known: Seq<Seq<char>>) -> nat
    decreases n,
{
    if n <= 0 {
        0
    } else {
        unresolved_count(links, n - 1, source, known) + if link_unresolved(links[n - 1], source, known) {
            1nat
        } else {
            0nat
        }
    }
}

/// Some note among the first `n`, at path `s`, holds a link that resolves
/// to `t`.
pub open spec fn link_edge(notes: Seq<(Seq<char>, Seq<char>)>, n: int, s: Seq<char>, t: Seq<char>) -> bool {
    exists|k: int|
        0 <= k < n && #[trigger] notes[k].0 == s && some_link_to(
            doc_links(notes[k].1),
            doc_links(notes[k].1).len() as int,
            s,
            note_paths(notes),
            t,
        )
}

/// How many links of the first `n` notes name a note and resolve to none.
pub open spec fn unresolved_total(notes: Seq<(Seq<char>, Seq<char>)>, n: int) -> nat
    decreases n,
{
    if n <= 0 {
        0
    } else {
        unresolved_total(notes, n - 1) + unresolved_count(
            doc_links(notes[n - 1].1),
            doc_links(notes[n - 1].1).len() as int,
            notes[n - 1].0,
            note_paths(notes),
        )
    }
}

/// `n`, or the largest `usize` where `n` exceeds it.
pub open spec fn saturate(n: nat) -> nat {
    if n <= usize::MAX {
        n
    } else {
        usize::MAX as nat
    }
}

/// Forward and backward links between notes.
pub struct LinkIndex {
    forward: PathMap,
    backward: PathMap,
}

impl LinkIndex {
    pub closed spec fn forward_view(&self) -> Seq<(Seq<char>, Seq<Seq<char>>)> {
        self.forward@
    }

    pub closed spec fn backward_view(&self) -> Seq<(Seq<char>, Seq<Seq<char>>)> {
        self.backward@
    }

    /// Note `s` has an entry in the forward map, possibly with no note.
    pub open spec fn forward_key(&self, s: Seq<char>) -> bool {
        has_key(self.forward_view(), s)
    }

    /// Note `t` has an entry in the backward map, possibly with no note.
    pub open spec fn backward_key(&self, t: Seq<char>) -> bool {
        has_key(self.backward_view(), t)
    }

    /// Both maps are in canonical form.
    pub open spec fn wf(&self) -> bool {
        canonical(self.forward_view()) && canonical(self.backward_view())
    }

    /// Note `s` links to note `t`, as the forward map says.
    pub open spec fn links_forward(&self, s: Seq<char>, t: Seq<char>) -> bool {
        related(self.forward_view(), s, t)
    }

    /// Note `t` is linked from note `s`, as the backward map says.
    pub open spec fn links_backward(&self, t: Seq<char>, s: Seq<char>) -> bool {
        related(self.backward_view(), t, s)
    }

    /// The two maps agree: `t` is among the forward links of `s` exactly
    /// when `s` is among the backward links of `t`.
    pub open spec fn consistent(&self) -> bool {
        forall|s: Seq<char>, t: Seq<char>| #[trigger]
            self.links_forward(s, t) <==> #[trigger] self.links_backward(t, s)
    }

    /// The index holds exactly the resolved links of `notes`, forward and
    /// backward.
    pub open spec fn built_from(&self, notes: Seq<(Seq<char>, Seq<char>)>) -> bool {
        &&& self.wf()
        &&& no_empty_lists(self.forward_view())
        &&& no_empty_lists(self.backward_view())
        &&& self.consistent()
        &&& forall|s: Seq<char>, t: Seq<char>| #[trigger]
            self.links_forward(s, t) <==> link_edge(notes, notes.len() as int, s, t)
    }

    /// The two maps as JSON texts, forward first: each an object from a note
    /// to its sorted notes.
    pub fn to_json(&self) -> (r: Result<(String, String), IndexError>)
        ensures
            r is Ok,
            r matches Ok(p) ==> p.0@ == json_text(self.forward_view()) && p.1@ == json_text(
                self.backward_view(),
            ),
    {
        let f = match encode_entries(self.forward.entries()) {
            Ok(s) => s,
            Err(e) => {
                return Err(IndexError::Unencodable(e.to_string()));
            },
        };
        match encode_entries(self.backward.entries()) {
            Ok(b) => Ok((f, b)),
            Err(e) => Err(IndexError::Unencodable(e.to_string())),
        }
    }

    /// Reads an index from the JSON texts of its forward and backward maps;
    /// `Malformed` where either is not an object of string arrays.
    pub fn from_json(forward: &str, backward: &str) -> (r: Result<LinkIndex, IndexError>)
        ensures
            r is Ok <==> json_entries(forward@) is Some && json_entries(backward@) is Some,
            r matches Ok(l) ==> l.wf() && (forall|s: Seq<char>, t: Seq<char>| #[trigger]
                l.links_forward(s, t) <==> related(json_entries(forward@)->0, s, t)) && (forall|
                t: Seq<char>,
                s: Seq<char>,
            | #[trigger] l.links_backward(t, s) <==> related(json_entries(backward@)->0, t, s)) && (forall|
                s: Seq<char>,
            | #[trigger] l.forward_key(s) <==> has_key(json_entries(forward@)->0, s)) && (forall|t: Seq<char>|
                #[trigger] l.backward_key(t) <==> has_key(json_entries(backward@)->0, t)),
            r matches Err(e) ==> e is Malformed,
    {
        let f = match decode_entries(forward) {
            Ok(f) => f,
            Err(e) => {
                return Err(IndexError::Malformed(e.to_string()));
            },
        };
        let b = match decode_entries(backward) {
            Ok(b) => b,
            Err(e) => {
                return Err(IndexError::Malformed(e.to_string()));
            },
        };
        proof {
            crate::tags::lemma_pairs_related(f);
            crate::tags::lemma_pairs_related(b);
        }
        Ok(LinkIndex::from_maps(f, b))
    }

    /// Builds the index from forward and backward maps given as pairs of a
    /// note and a list of notes; each list is sorted and each note kept once.
    pub fn from_maps(forward: Vec<(String, Vec<String>)>, backward: Vec<(String, Vec<String>)>) -> (r: LinkIndex)
        ensures
            r.wf(),
            forall|s: Seq<char>, t: Seq<char>| #[trigger]
                r.links_forward(s, t) <==> exists|i: int| 0 <= i < forward.len() && #[trigger] forward@[i].0@ == s
                    && forward@[i].1.deep_view().contains(t),
            forall|t: Seq<char>, s: Seq<char>| #[trigger]
                r.links_backward(t, s) <==> exists|i: int| 0 <= i < backward.len() && #[trigger] backward@[i].0@ == t
                    && backward@[i].1.deep_view().contains(s),
            forall|s: Seq<char>| #[trigger]
                r.forward_key(s) <==> exists|i: int| 0 <= i < forward.len() && #[trigger] forward@[i].0@ == s,
            forall|t: Seq<char>| #[trigger]
                r.backward_key(t) <==> exists|i: int| 0 <= i < backward.len() && #[trigger] backward@[i].0@ == t,
    {
        let r = LinkIndex { forward: PathMap::from_pairs(&forward), backward: PathMap::from_pairs(&backward) };
        assert forall|s: Seq<char>| #[trigger] r.forward_key(s) <==> r.forward.key(s) by {}
        assert forall|t: Seq<char>| #[trigger] r.backward_key(t) <==> r.backward.key(t) by {}
        assert forall|s: Seq<char>, t: Seq<char>| #[trigger] r.links_forward(s, t) <==> r.forward.has(s, t) by {}
        assert forall|t: Seq<char>, s: Seq<char>| #[trigger] r.links_backward(t, s) <==> r.backward.has(t, s) by {}
        r
    }

    /// The notes that `note` links to, sorted; `None` where it has no entry.
    pub fn get_forward(&self, note: &str) -> (r: Option<&Vec<String>>)
        requires
            self.wf(),
        ensures
            r is None <==> !self.forward_key(note@),
            r is None ==> forall|t: Seq<char>| !self.links_forward(note@, t),
            r matches Some(l) ==> strictly_sorted(l.deep_view()) && forall|t: Seq<char>|
                l.deep_view().contains(t) <==> self.links_forward(note@, t),
    {
        let r = self.forward.get(note);
        assert forall|t: Seq<char>| #[trigger] self.links_forward(note@, t) <==> self.forward.has(note@, t) by {}
        r
    }

    /// The notes that link to `note`, sorted; `None` where it has no entry.
    pub fn get_backward(&self, note: &str) -> (r: Option<&Vec<String>>)
        requires
            self.wf(),
        ensures
            r is None <==> !self.backward_key(note@),
            r is None ==> forall|s: Seq<char>| !self.links_backward(note@, s),
            r matches Some(l) ==> strictly_sorted(l.deep_view()) && forall|s: Seq<char>|
                l.deep_view().contains(s) <==> self.links_backward(note@, s),
    {
        let r = self.backward.get(note);
        assert forall|s: Seq<char>| #[trigger] self.links_backward(note@, s) <==> self.backward.has(note@, s) by {}
        r
    }

    /// The forward map's entries, in canonical order.
    pub fn forward_entries(&self) -> (r: &Vec<(String, Vec<String>)>)
        ensures
            r.deep_view() == self.forward_view(),
    {
        self.forward.entries()
    }

    /// The backward map's entries, in canonical order.
    pub fn backward_entries(&self) -> (r: &Vec<(String, Vec<String>)>)
        ensures
            r.deep_view() == self.backward_view(),
    {
        self.backward.entries()
    }

    /// Builds the link index of a collection of notes, given as pairs of a
    /// note's path and its content, with the number of links that name a
    /// note but resolve to none.
    pub fn build_from_vault(notes: &Vec<(String, String)>) -> (r: (LinkIndex, usize))
        ensures
            r.0.built_from(notes.deep_view()),
            r.1 == saturate(unresolved_total(notes.deep_view(), notes@.len() as int)),
    {
        let known = paths_of(notes);
        let parser = TreeSitterParser {  };
        let mut acc = LinkAccumulator::new();
        let mut k: usize = 0;
        while k < notes.len()
            invariant
                k <= notes@.len(),
                known.deep_view() == note_paths(notes.deep_view()),
                acc.wf(),
                acc.holds_links_of(notes.deep_view(), k as int),
            decreases notes@.len() - k,
        {
            let parsed = parser.parse_content(notes[k].1.as_str());
            acc.add_note(notes, k, &parsed.wikilinks, &known);
            k = k + 1;
        }
        acc.finish(Ghost(notes.deep_view()))
    }
}

proof fn lemma_same_keys(x: Seq<(Seq<char>, Seq<Seq<char>>)>, y: Seq<(Seq<char>, Seq<Seq<char>>)>)
    requires
        no_empty_lists(x),
        no_empty_lists(y),
        forall|k: Seq<char>, p: Seq<char>| related(x, k, p) <==> related(y, k, p),
    ensures
        forall|k: Seq<char>| has_key(x, k) <==> has_key(y, k),
{
    lemma_keys_of_related(x);
    lemma_keys_of_related(y);
    assert forall|k: Seq<char>| has_key(x, k) <==> has_key(y, k) by {
        if has_key(x, k) {
            let p = choose|p: Seq<char>| related(x, k, p);
            assert(related(y, k, p));
        }
        if has_key(y, k) {
            let p = choose|p: Seq<char>| related(y, k, p);
            assert(related(x, k, p));
        }
    }
}

/// Rebuilding the link index of an unchanged collection gives the same
/// forward and backward maps, hence the same JSON texts.
pub proof fn lemma_link_index_rebuild_identical(
    notes: Seq<(Seq<char>, Seq<char>)>,
    first: LinkIndex,
    second: LinkIndex,
)
    requires
        first.built_from(notes),
        second.built_from(notes),
    ensures
        first.forward_view() == second.forward_view(),
        first.backward_view() == second.backward_view(),
        json_text(first.forward_view()) == json_text(second.forward_view()),
        json_text(first.backward_view()) == json_text(second.backward_view()),
{
    assert forall|s: Seq<char>, t: Seq<char>|
        related(first.forward_view(), s, t) <==> related(second.forward_view(), s, t) by {
        assert(first.links_forward(s, t) == related(first.forward_view(), s, t));
        assert(second.links_forward(s, t) == related(second.forward_view(), s, t));
    }
    assert forall|t: Seq<char>, s: Seq<char>|
        related(first.backward_view(), t, s) <==> related(second.backward_view(), t, s) by {
        assert(first.links_backward(t, s) == related(first.backward_view(), t, s));
        assert(second.links_backward(t, s) == related(second.backward_view(), t, s));
        assert(first.links_forward(s, t) == related(first.forward_view(), s, t));
        assert(second.links_forward(s, t) == related(second.forward_view(), s, t));
    }
    lemma_same_keys(first.forward_view(), second.forward_view());
    lemma_same_keys(first.backward_view(), second.backward_view());
    lemma_canonical_unique(first.forward_view(), second.forward_view());
    lemma_canonical_unique(first.backward_view(), second.backward_view());
}

/// Saving then loading gives back the same link index: where the JSON codec
/// reads back the entries that it wrote for each map of `saved`, an index
/// loaded from those texts has the same forward and backward maps.
pub proof fn lemma_link_index_round_trip(saved: LinkIndex, loaded: LinkIndex)
    requires
        saved.wf(),
        json_entries(json_text(saved.forward_view())) == Some(saved.forward_view()),
        json_entries(json_text(saved.backward_view())) == Some(saved.backward_view()),
        loaded.wf(),
        forall|s: Seq<char>, t: Seq<char>| #[trigger]
            loaded.links_forward(s, t) <==> related(json_entries(json_text(saved.forward_view()))->0, s, t),
        forall|t: Seq<char>, s: Seq<char>| #[trigger]
            loaded.links_backward(t, s) <==> related(json_entries(json_text(saved.backward_view()))->0, t, s),
        forall|s: Seq<char>| #[trigger]
            loaded.forward_key(s) <==> has_key(json_entries(json_text(saved.forward_view()))->0, s),
        forall|t: Seq<char>| #[trigger]
            loaded.backward_key(t) <==> has_key(json_entries(json_text(saved.backward_view()))->0, t),
    ensures
        loaded.forward_view() == saved.forward_view(),
        loaded.backward_view() == saved.backward_view(),
{
    assert forall|s: Seq<char>, t: Seq<char>|
        related(loaded.forward_view(), s, t) <==> related(saved.forward_view(), s, t) by {
        assert(loaded.links_forward(s, t) == related(loaded.forward_view(), s, t));
    }
    assert forall|t: Seq<char>, s: Seq<char>|
        related(loaded.backward_view(), t, s) <==> related(saved.backward_view(), t, s) by {
        assert(loaded.links_backward(t, s) == related(loaded.backward_view(), t, s));
    }
    assert forall|s: Seq<char>| has_key(loaded.forward_view(), s) <==> has_key(saved.forward_view(), s) by {
        assert(loaded.forward_key(s) == has_key(loaded.forward_view(), s));
    }
    assert forall|t: Seq<char>| has_key(loaded.backward_view(), t) <==> has_key(saved.backward_view(), t) by {
        assert(loaded.backward_key(t) == has_key(loaded.backward_view(), t));
    }
    lemma_canonical_unique(loaded.forward_view(), saved.forward_view());
    lemma_canonical_unique(loaded.backward_view(), saved.backward_view());
}

/// The paths of a collection of notes.
pub fn paths_of(notes: &Vec<(String, String)>) -> (r: Vec<String>)
    ensures
        r.deep_view() == note_paths(notes.deep_view()),
{
    let mut out: Vec<String> = Vec::new();
    let mut i: usize = 0;
    while i < notes.len()
        invariant
            i <= notes@.len(),
            out.deep_view() == note_paths(notes.deep_view()).take(i as int),
        decreases notes@.len() - i,
    {
        let ghost before = out.deep_view();
        let p = notes[i].0.clone();
        assert(p@ == note_paths(notes.deep_view())[i as int]);
        out.push(p);
        assert(out.deep_view() =~= before.push(p@));
        assert(out.deep_view() =~= note_paths(notes.deep_view()).take(i + 1));
        i = i + 1;
    }
    assert(note_paths(notes.deep_view()).take(notes@.len() as int) =~= note_paths(notes.deep_view()));
    out
}

/// The forward and backward maps and the count of unresolved links, while
/// a collection is being read.
pub(crate) struct LinkAccumulator {
    forward: PathMap,
    backward: PathMap,
    unresolved: usize,
}

impl LinkAccumulator {
    pub(crate) closed spec fn wf(&self) -> bool {
        &&& self.forward.wf()
        &&& self.backward.wf()
        &&& no_empty_lists(self.forward@)
        &&& no_empty_lists(self.backward@)
        &&& forall|s: Seq<char>, t: Seq<char>| #[trigger]
            self.forward.has(s, t) <==> #[trigger] self.backward.has(t, s)
    }

    /// The accumulator holds exactly the links of the first `n` notes.
    pub(crate) closed spec fn holds_links_of(&self, notes: Seq<(Seq<char>, Seq<char>)>, n: int) -> bool {
        &&& forall|s: Seq<char>, t: Seq<char>| #[trigger]
            self.forward.has(s, t) <==> link_edge(notes, n, s, t)
        &&& self.unresolved == saturate(unresolved_total(notes, n))
    }

    /// Nothing read yet.
    pub(crate) fn new() -> (r: LinkAccumulator)
        ensures
            r.wf(),
            forall|notes: Seq<(Seq<char>, Seq<char>)>| r.holds_links_of(notes, 0),
    {
        LinkAccumulator { forward: PathMap::new(), backward: PathMap::new(), unresolved: 0 }
    }

    /// Reads the wikilinks `links` of note `k` of `notes`.
    pub(crate) fn add_note(
        &mut self,
        notes: &Vec<(String, String)>,
        k: usize,
        links: &Vec<Wikilink>,
        known: &Vec<String>,
    )
        requires
            old(self).wf(),
            k < notes@.len(),
            old(self).holds_links_of(notes.deep_view(), k as int),
            links_view(links@) == doc_links(notes@[k as int].1@),
            known.deep_view() == note_paths(notes.deep_view()),
        ensures
            final(self).wf(),
            final(self).holds_links_of(notes.deep_view(), k + 1),
    {
        let ghost nd = notes.deep_view();
        let ghost lv = links_view(links@);
        let ghost src = nd[k as int].0;
        assert(src == notes@[k as int].0@);
        assert(nd[k as int].1 == notes@[k as int].1@);
        let source = &notes[k].0;
        let mut j: usize = 0;
        while j < links.len()
            invariant
                j <= links@.len(),
                lv == links_view(links@),
                lv == doc_links(nd[k as int].1),
                src == source@,
                nd == notes.deep_view(),
                k < nd.len(),
                known.deep_view() == note_paths(nd),
                self.wf(),
                forall|s: Seq<char>, t: Seq<char>| #[trigger]
                    self.forward.has(s, t) <==> (link_edge(nd, k as int, s, t) || (s == src
                        && some_link_to(lv, j as int, src, note_paths(nd), t))),
                self.unresolved == saturate(unresolved_total(nd, k as int) + unresolved_count(lv, j as int, src, note_paths(nd))),
            decreases links@.len() - j,
        {
            let target = &links[j].target;
            assert(lv[j as int] == links@[j as int]@);
            let ghost fwd0 = self.forward;
            let ghost bwd0 = self.backward;
            if should_index_wikilink(target.as_str()) {
                match resolve_target(target.as_str(), source.as_str(), known) {
                    Some(t) => {
                        let ghost tv = t@;
                        self.forward.insert(source.clone(), t.clone());
                        self.backward.insert(t, source.clone());
                        assert(link_resolves_to(lv[j as int], src, note_paths(nd), tv));
                        assert forall|u: Seq<char>| #[trigger]
                            some_link_to(lv, j + 1, src, note_paths(nd), u) <==> (some_link_to(lv, j as int, src, note_paths(nd), u)
                                || u == tv) by {
                            if some_link_to(lv, j + 1, src, note_paths(nd), u) {
                                let m = choose|m: int| 0 <= m < j + 1 && #[trigger] link_resolves_to(lv[m], src, note_paths(nd), u);
                            }
                            if some_link_to(lv, j as int, src, note_paths(nd), u) {
                                let m = choose|m: int| 0 <= m < j && #[trigger] link_resolves_to(lv[m], src, note_paths(nd), u);
                            }
                        }
                    },
                    None => {
                        if self.unresolved < usize::MAX {
                            self.unresolved = self.unresolved + 1;
                        }
                        assert forall|u: Seq<char>| #[trigger]
                            some_link_to(lv, j + 1, src, note_paths(nd), u) <==> some_link_to(lv, j as int, src, note_paths(nd), u) by {
                            if some_link_to(lv, j + 1, src, note_paths(nd), u) {
                                let m = choose|m: int| 0 <= m < j + 1 && #[trigger] link_resolves_to(lv[m], src, note_paths(nd), u);
                            }
                            if some_link_to(lv, j as int, src, note_paths(nd), u) {
                                let m = choose|m: int| 0 <= m < j && #[trigger] link_resolves_to(lv[m], src, note_paths(nd), u);
                            }
                        }
                    },
                }
            } else {
                assert forall|u: Seq<char>| #[trigger]
                    some_link_to(lv, j + 1, src, note_paths(nd), u) <==> some_link_to(lv, j as int, src, note_paths(nd), u) by {
                    if some_link_to(lv, j + 1, src, note_paths(nd), u) {
                        let m = choose|m: int| 0 <= m < j + 1 && #[trigger] link_resolves_to(lv[m], src, note_paths(nd), u);
                    }
                    if some_link_to(lv, j as int, src, note_paths(nd), u) {
                        let m = choose|m: int| 0 <= m < j && #[trigger] link_resolves_to(lv[m], src, note_paths(nd), u);
                    }
                }
            }
            j = j + 1;
        }
        proof {
            assert forall|s: Seq<char>, t: Seq<char>| #[trigger]
                self.forward.has(s, t) <==> link_edge(nd, k + 1, s, t) by {
                if link_edge(nd, k + 1, s, t) && !link_edge(nd, k as int, s, t) {
                    let m = choose|m: int|
                        0 <= m < k + 1 && #[trigger] nd[m].0 == s && some_link_to(
                            doc_links(nd[m].1),
                            doc_links(nd[m].1).len() as int,
                            s,
                            note_paths(nd),
                            t,
                        );
                    assert(m == k);
                }
                if s == src && some_link_to(lv, lv.len() as int, src, note_paths(nd), t) {
                    assert(nd[k as int].0 == s);
                }
            }
        }
    }

    /// The finished index and the count of unresolved links, once every
    /// note of `notes` has been read.
    pub(crate) fn finish(self, Ghost(notes): Ghost<Seq<(Seq<char>, Seq<char>)>>) -> (r: (LinkIndex, usize))
        requires
            self.wf(),
            self.holds_links_of(notes, notes.len() as int),
        ensures
            r.0.built_from(notes),
            r.1 == saturate(unresolved_total(notes, notes.len() as int)),
    {
        let r = LinkIndex { forward: self.forward, backward: self.backward };
        assert forall|s: Seq<char>, t: Seq<char>| #[trigger]
            r.links_forward(s, t) <==> #[trigger] r.links_backward(t, s) by {
            assert(r.links_forward(s, t) == self.forward.has(s, t));
            assert(r.links_backward(t, s) == self.backward.has(t, s));
        }
        assert forall|s: Seq<char>, t: Seq<char>| #[trigger]
            r.links_forward(s, t) <==> link_edge(notes, notes.len() as int, s, t) by {
            assert(r.links_forward(s, t) == self.forward.has(s, t));
        }
        (r, self.unresolved)
    }
}

} // verus!
