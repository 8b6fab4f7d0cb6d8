use vstd::prelude::*;

use crate::query::compiled;
use crate::query::compiled::{compile_query, CompiledQuery};

verus! {

/// A language that queries can be written for.
#[derive(PartialEq, Eq, Structural, Hash, Debug, Clone, Copy)]
pub enum Language {
    Rust,
}

/// Every supported language, in the order in which they are listed to users.
pub open spec fn all_languages() -> Seq<Language> {
    seq![Language::Rust]
}

/// The name of a language on the command line and in listings.
pub open spec fn language_name(lang: Language) -> Seq<char> {
    match lang {
        Language::Rust => "rust"@,
    }
}

/// The name of a language's file type among the `ignore` crate's type definitions.
pub open spec fn types_builder_name(lang: Language) -> Seq<char> {
    match lang {
        Language::Rust => "rust"@,
    }
}

/// The language whose name is `name`, if there is one.
pub open spec fn parse_language(name: Seq<char>) -> Option<Language> {
    if name == "rust"@ {
        Some(Language::Rust)
    } else {
        None
    }
}

/// The names of `langs` joined by `", "`.
pub open spec fn joined_names(langs: Seq<Language>) -> Seq<char>
    decreases langs.len(),
{
    if langs.len() == 0 {
        Seq::empty()
    } else if langs.len() == 1 {
        language_name(langs[0])
    } else {
        joined_names(langs.drop_last()) + ", "@ + language_name(langs.last())
    }
}

/// The text of the error for an unknown language name.
pub open spec fn unknown_language_message(input: Seq<char>) -> Seq<char> {
    "unknown language "@ + input + ". Try one of: "@ + joined_names(all_languages())
}

/// The error for a language name that is not known.
#[derive(Debug)]
pub struct UnknownLanguage {
    pub input: String,
}

impl UnknownLanguage {
    /// The text of the error, naming the input and the known languages.
    pub fn to_string(&self) -> (message: String)
        ensures
            message@ == unknown_language_message(self.input@),
    {
        let mut message = String::from_str("unknown language ");
        message.append(self.input.as_str());
        message.append(". Try one of: ");
        let langs = Language::all();
        let mut i: usize = 0;
        while i < langs.len()
            invariant
                0 <= i <= langs.len(),
                langs@ == all_languages(),
                message@ == "unknown language "@ + self.input@ + ". Try one of: "@ + joined_names(
                    langs@.take(i as int),
                ),
            decreases langs.len() - i,
        {
            assert(langs@.take(i + 1).drop_last() =~= langs@.take(i as int));
            if i > 0 {
                message.append(", ");
            } else {
                assert(langs@.take(i as int) =~= Seq::<Language>::empty());
            }
            let name = langs[i].to_string();
            message.append(name.as_str());
            assert(langs@.take(i + 1).last() == langs@[i as int]);
            i = i + 1;
        }
        assert(langs@.take(langs.len() as int) =~= langs@);
        message
    }
}

/// Whether two texts are equal.
pub(crate) fn same_text(a: &str, b: &str) -> (same: bool)
    ensures
        same == (a@ == b@),
{
    let a_owned = a.to_owned();
    let b_owned = b.to_owned();
    a_owned == b_owned
}

impl Language {
    /// Every supported language.
    pub fn all() -> (langs: Vec<Language>)
        ensures
            langs@ == all_languages(),
    {
        let mut langs = Vec::new();
        langs.push(Language::Rust);
        langs
    }

    /// Compiles `raw` as a query for this language; the error is tree-sitter's message.
    pub fn parse_query(&self, raw: &str) -> (query: Result<CompiledQuery, String>)
        ensures
            query is Ok <==> compiled::query_rejection(*self, raw@) is None,
            query matches Ok(q) ==> q.language() == *self && q.source() == raw@,
            query matches Err(message) ==> compiled::query_rejection(*self, raw@) == Some(message@),
    {
        compile_query(*self, raw)
    }

    /// The name of the language's file type for the `ignore` crate's types builder.
    pub fn name_for_types_builder(&self) -> (name: &str)
        ensures
            name@ == types_builder_name(*self),
    {
        match self {
            Language::Rust => "rust",
        }
    }

    /// The language's name, as it is printed.
    pub fn to_string(&self) -> (name: String)
        ensures
            name@ == language_name(*self),
    {
        match self {
            Language::Rust => String::from_str("rust"),
        }
    }

    /// The language named `s`.
    pub fn from_str(s: &str) -> (lang: Result<Language, UnknownLanguage>)
        ensures
            lang is Ok <==> parse_language(s@) is Some,
            lang matches Ok(l) ==> parse_language(s@) == Some(l),
            lang matches Err(e) ==> e.input@ == s@,
    {
        if same_text(s, "rust") {
            Ok(Language::Rust)
        } else {
            Err(UnknownLanguage { input: String::from_str(s) })
        }
    }
}

impl std::str::FromStr for Language {
    type Err = UnknownLanguage;

    fn from_str(s: &str) -> (lang: Result<Language, UnknownLanguage>)
        ensures
            lang is Ok <==> parse_language(s@) is Some,
            lang matches Ok(l) ==> parse_language(s@) == Some(l),
            lang matches Err(e) ==> e.input@ == s@,
    {
        Language::from_str(s)
    }
}

/// Printing a language and reading the printed name back gives the same language.
pub proof fn lemma_name_round_trip(lang: Language)
    ensures
        parse_language(language_name(lang)) == Some(lang),
{
}

/// The list of all languages holds every language, and none twice.
pub proof fn lemma_all_lists_every_language_once(lang: Language)
    ensures
        all_languages().contains(lang),
        forall|i: int, j: int|
            0 <= i < j < all_languages().len() ==> all_languages()[i] != all_languages()[j],
{
    assert(all_languages()[0] == lang);
}

} // verus!
