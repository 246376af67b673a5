//! The structural parser: from a note's content to its title, headings,
//! tags and wikilinks.
use vstd::prelude::*;

use crate::markdown::{
    doc_headings, doc_links, heading_occurrences_of, headings_view, is_doc_tag, lines_of,
    link_occurrences_of, links_view, title_of, Heading, Wikilink,
};
use crate::tags::tags_of_lines;
use crate::text::{chars_of, strictly_sorted};

verus! {

broadcast use vstd::string::group_string_axioms;

/// What the parser reads from a note.
#[derive(Debug, Clone, PartialEq)]
pub struct ParsedMarkdown {
    /// Text of the first level-1 heading; empty where there is none.
    pub title: String,
    /// All headings, in document order.
    pub headings: Vec<Heading>,
    /// All wikilinks, in document order.
    pub wikilinks: Vec<Wikilink>,
    /// The tags, sorted, each once.
    pub tags: Vec<String>,
    /// The whole content.
    pub body: String,
}

/// A note's path within the collection, with what the parser read from it.
#[derive(Debug, Clone, PartialEq)]
pub struct ParsedNote {
    pub path: String,
    pub markdown: ParsedMarkdown,
}

/// Why content could not be parsed.
#[derive(Debug, Clone, PartialEq)]
pub struct ParseError {
    pub message: String,
}

/// `p` is what the parser reads from `content`.
pub open spec fn parsed_from(p: ParsedMarkdown, content: Seq<char>) -> bool {
    &&& p.body@ == content
    &&& headings_view(p.headings@) == doc_headings(content)
    &&& links_view(p.wikilinks@) == doc_links(content)
    &&& strictly_sorted(p.tags.deep_view())
    &&& forall|t: Seq<char>| #[trigger] p.tags.deep_view().contains(t) <==> is_doc_tag(content, t)
    &&& p.title@ == title_of(doc_headings(content))
}

/// A Markdown parser. Whatever it succeeds on, it reads as the grammar of
/// `crate::markdown` says.
pub trait MarkdownParser {
    fn parse(&mut self, content: &str) -> (r: Result<ParsedMarkdown, ParseError>)
        ensures
            r matches Ok(p) ==> parsed_from(p, content@),
    ;
}

/// The Markdown structural parser: block structure (headings, fenced code)
/// first, then the inline elements of prose (tags, wikilinks).
pub struct TreeSitterParser {}

impl TreeSitterParser {
    /// A parser; making one cannot fail.
    pub fn new() -> (r: Result<TreeSitterParser, ParseError>)
        ensures
            r is Ok,
    {
        Ok(TreeSitterParser {  })
    }

    /// Reads the title, headings, tags and wikilinks of `content`, going
    /// over its lines once.
    pub fn parse_content(&self, content: &str) -> (r: ParsedMarkdown)
        ensures
            parsed_from(r, content@),
    {
        let cs = chars_of(content);
        let lines = lines_of(&cs);
        let headings = heading_occurrences_of(&lines);
        let wikilinks = link_occurrences_of(&lines);
        let tags = tags_of_lines(&lines);
        let title = crate::markdown::title_from(&headings);
        ParsedMarkdown { title, headings, wikilinks, tags, body: content.to_string() }
    }
}

impl MarkdownParser for TreeSitterParser {
    fn parse(&mut self, content: &str) -> (r: Result<ParsedMarkdown, ParseError>)
        ensures
            r is Ok,
    {
        Ok(self.parse_content(content))
    }
}

} // verus!
