//! One pass over a collection of notes that builds both indexes, parsing
//! each note once.
use vstd::prelude::*;

use crate::links::{paths_of, saturate, unresolved_total, LinkAccumulator, LinkIndex, note_paths};
use crate::parser::TreeSitterParser;
use crate::pathmap::{no_empty_lists, PathMap};
use crate::tags::{add_note_tags, tagged_in, TagIndex};

verus! {

/// Builds the tag index and the link index of a collection of notes, given
/// as pairs of a note's path and its content, with the number of links that
/// name a note but resolve to none.
pub fn build_indexes(notes: &Vec<(String, String)>) -> (r: (TagIndex, LinkIndex, usize))
    ensures
        r.0.built_from(notes.deep_view()),
        r.1.built_from(notes.deep_view()),
        r.2 == saturate(unresolved_total(notes.deep_view(), notes@.len() as int)),
{
    let ghost nd = notes.deep_view();
    let known = paths_of(notes);
    let parser = TreeSitterParser {  };
    let mut tags = PathMap::new();
    let mut links = LinkAccumulator::new();
    let mut k: usize = 0;
    while k < notes.len()
        invariant
            k <= notes@.len(),
            nd == notes.deep_view(),
            known.deep_view() == note_paths(nd),
            tags.wf(),
            no_empty_lists(tags@),
            forall|t: Seq<char>, p: Seq<char>| #[trigger] tags.has(t, p) <==> tagged_in(nd, k as int, t, p),
            links.wf(),
            links.holds_links_of(nd, k as int),
        decreases notes@.len() - k,
    {
        let parsed = parser.parse_content(notes[k].1.as_str());
        assert(nd[k as int] == (notes@[k as int].0@, notes@[k as int].1@));
        add_note_tags(&mut tags, &parsed.tags, &notes[k].0);
        proof {
            crate::tags::lemma_tagged_in_one_more(nd, k as int);
        }
        links.add_note(notes, k, &parsed.wikilinks, &known);
        k = k + 1;
    }
    let (link_index, unresolved) = links.finish(Ghost(nd));
    (TagIndex::from_path_map(tags), link_index, unresolved)
}

} // verus!
