use vstd::prelude::*;

use crate::query::language::Language;

verus! {

/// What tree-sitter answers when asked to compile `source` as a query for `lang`:
/// `None` when the query compiles, else the text of the query error.
pub uninterp spec fn query_rejection(lang: Language, source: Seq<char>) -> Option<Seq<char>>;

/// The capture names, in order, of the query `source` compiled for `lang`.
pub uninterp spec fn query_capture_names(lang: Language, source: Seq<char>) -> Seq<Seq<char>>;

/// The captures that the query `query` for `lang` finds in `text`, in tree-sitter's order:
/// the capture's index among the query's capture names, its start and end byte, and its
/// start row and column and end row and column (counted from 0).
pub uninterp spec fn query_captures(lang: Language, query: Seq<char>, text: Seq<u8>) -> Seq<
    (nat, nat, nat, nat, nat, nat, nat),
>;

/// A query compiled by tree-sitter, with the language and the text it was compiled from.
/// Only `compile_query` builds one.
#[derive(Debug)]
pub struct CompiledQuery {
    inner: tree_sitter::Query,
    language: Language,
    source: String,
}

impl CompiledQuery {
    /// The language the query was compiled for.
    pub closed spec fn language(&self) -> Language {
        self.language
    }

    /// The text the query was compiled from.
    pub closed spec fn source(&self) -> Seq<char> {
        self.source@
    }

    /// The text the query was compiled from.
    pub fn source_text(&self) -> (source: &str)
        ensures
            source@ == self.source(),
    {
        self.source.as_str()
    }

    /// The capture names of the query, by `tree_sitter::Query::capture_names`. Trusted: they
    /// are `query_capture_names` of the language and the text the query was compiled from,
    /// which `compile_query` records when it builds the query.
    #[verifier::external_body]
    pub fn capture_names(&self) -> (names: Vec<String>)
        ensures
            names@.map_values(|name: String| name@) == query_capture_names(
                self.language(),
                self.source(),
            ),
    {
        self.inner.capture_names().iter().map(|name| name.to_string()).collect()
    }
}

/// Compiles `source` by `tree_sitter::Query::new` against the grammar of `lang` (for
/// `Language::Rust`, the one of `tree_sitter_rust::language`), turning a `QueryError` into
/// its displayed text and a compiled query into a `CompiledQuery` that records `lang` and
/// `source`. Trusted: the call succeeds exactly when `query_rejection` of the language and
/// the source is `None`, and otherwise fails with the text that `query_rejection` names.
#[verifier::external_body]
pub(crate) fn compile_query(lang: Language, source: &str) -> (compiled: Result<
    CompiledQuery,
    String,
>)
    ensures
        compiled is Ok <==> query_rejection(lang, source@) is None,
        compiled matches Ok(q) ==> q.language() == lang && q.source() == source@,
        compiled matches Err(message) ==> query_rejection(lang, source@) == Some(message@),
{
    let Language::Rust = lang;
    match tree_sitter::Query::new(&tree_sitter_rust::language(), source) {
        Ok(inner) => Ok(CompiledQuery { inner, language: lang, source: source.to_string() }),
        Err(e) => Err(e.to_string()),
    }
}

/// One capture of a query in a text: the capture's index among the query's capture names,
/// its byte range, and its start and end positions (rows and columns from 0).
#[derive(Debug, Clone, Copy)]
pub struct Capture {
    pub index: usize,
    pub start_byte: usize,
    pub end_byte: usize,
    pub start_row: usize,
    pub start_column: usize,
    pub end_row: usize,
    pub end_column: usize,
}

impl Capture {
    /// The capture as a tuple of its numbers.
    pub open spec fn spec_tuple(self) -> (nat, nat, nat, nat, nat, nat, nat) {
        (
            self.index as nat,
            self.start_byte as nat,
            self.end_byte as nat,
            self.start_row as nat,
            self.start_column as nat,
            self.end_row as nat,
            self.end_column as nat,
        )
    }
}

/// Parses `text` by `tree_sitter::Parser::parse` with the grammar of the query's language
/// and collects the captures of `tree_sitter::QueryCursor::captures` for the query over the
/// tree. Trusted: the captures are `query_captures` of the query's language, its text and
/// `text`; as the tree-sitter source shows, each capture's index names one of the query's
/// captures and its byte range lies within `text`. Setting the language cannot fail (the
/// grammar's version is one the library accepts) and parsing without a timeout or a
/// cancellation flag always gives a tree.
#[verifier::external_body]
pub(crate) fn run_query(query: &CompiledQuery, text: &[u8]) -> (captures: Vec<Capture>)
    ensures
        captures@.map_values(|c: Capture| c.spec_tuple()) == query_captures(
            query.language(),
            query.source(),
            text@,
        ),
        forall|k: int|
            0 <= k < captures@.len() ==> {
                &&& (#[trigger] captures@[k]).index < query_capture_names(
                    query.language(),
                    query.source(),
                ).len()
                &&& captures@[k].start_byte <= captures@[k].end_byte <= text@.len()
            },
{
    let Language::Rust = query.language;
    let mut parser = tree_sitter::Parser::new();
    parser.set_language(&tree_sitter_rust::language()).expect("a compatible grammar");
    let tree = parser.parse(text, None).expect("a tree");
    let mut cursor = tree_sitter::QueryCursor::new();
    cursor.captures(&query.inner, tree.root_node(), text).map(|(found, i)| {
        let node = found.captures[i].node;
        let (start, end) = (node.start_position(), node.end_position());
        Capture { index: found.captures[i].index as usize, start_byte: node.start_byte(),
            end_byte: node.end_byte(), start_row: start.row, start_column: start.column,
            end_row: end.row, end_column: end.column }
    }).collect()
}

/// The text of `bytes` by `std::str::from_utf8`. Trusted, as std documents: it is a text
/// exactly when the bytes are valid UTF-8, and then it is what they encode.
#[verifier::external_body]
pub(crate) fn utf8_text(bytes: &[u8]) -> (text: Option<&str>)
    ensures
        text is Some <==> vstd::utf8::valid_utf8(bytes@),
        text matches Some(t) ==> t@ == vstd::utf8::decode_utf8(bytes@),
{
    std::str::from_utf8(bytes).ok()
}

} // verus!
