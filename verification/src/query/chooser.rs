use vstd::prelude::*;

use crate::query::cli;
use crate::query::cli::QueryOpts;
use crate::query::language;

verus! {

/// A file type matcher of the `ignore` crate.
#[verifier::external_type_specification]
#[verifier::external_body]
pub struct ExTypes(ignore::types::Types);

/// The name of the selected file type that whitelists `path` in a matcher built from the
/// `ignore` crate's default type definitions with the types `selected` selected, in order.
pub uninterp spec fn matched_file_type(selected: Seq<Seq<char>>, path: Seq<char>) -> Option<
    Seq<char>,
>;

/// What the `ignore` crate answers when asked to build a matcher from its default type
/// definitions with the types `selected` selected: `None` when it builds one, else the
/// text of its error.
pub uninterp spec fn types_rejection(selected: Seq<Seq<char>>) -> Option<Seq<char>>;

/// A file type matcher, with the type names it was built to select. Only `build_types`
/// builds one.
pub struct TypeMatcher {
    inner: ignore::types::Types,
    selected: Vec<String>,
}

impl TypeMatcher {
    /// The names of the selected file types, in order.
    pub closed spec fn selected(&self) -> Seq<Seq<char>> {
        cli::texts(self.selected@)
    }
}

/// Builds a matcher by `ignore::types::TypesBuilder`: `new`, `add_defaults`, `select` of
/// each name in order, then `build`, turning the error into its displayed text. Trusted:
/// it succeeds exactly when `types_rejection` of the names is `None`, else fails with that
/// text; the matcher records the names. The name `all` selects every defined type in the
/// order of a hash map, which is no function of the names, so it is left out.
#[verifier::external_body]
fn build_types(selected: &Vec<String>) -> (matcher: Result<TypeMatcher, String>)
    requires
        forall|k: int| 0 <= k < selected@.len() ==> (#[trigger] selected@[k])@ != "all"@,
    ensures
        matcher is Ok <==> types_rejection(cli::texts(selected@)) is None,
        matcher matches Ok(m) ==> m.selected() == cli::texts(selected@),
        matcher matches Err(message) ==> types_rejection(cli::texts(selected@)) == Some(message@),
{
    let mut builder = ignore::types::TypesBuilder::new();
    builder.add_defaults();
    for name in selected.iter() {
        builder.select(name);
    }
    match builder.build() {
        Ok(inner) => Ok(TypeMatcher { inner, selected: selected.clone() }),
        Err(e) => Err(e.to_string()),
    }
}

/// The file type that whitelists `path`, by `ignore::types::Types::matched` (on a path that
/// is no directory) and the name of the matched glob's `FileTypeDef`. Trusted: it is
/// `matched_file_type` of the matcher's selected names and the path.
#[verifier::external_body]
fn matched_type(matcher: &TypeMatcher, path: &str) -> (name: Option<String>)
    ensures
        match name {
            Some(n) => matched_file_type(matcher.selected(), path@) == Some(n@),
            None => matched_file_type(matcher.selected(), path@) is None,
        },
{
    match matcher.inner.matched(path, false) {
        ignore::Match::Whitelist(glob) => glob.file_type_def().map(|def| def.name().to_string()),
        ignore::Match::Ignore(_) => None,
        ignore::Match::None => None,
    }
}

/// The last of the first `n` names that equals `name`.
pub open spec fn last_named(names: Seq<Seq<char>>, name: Seq<char>, n: nat) -> Option<int>
    decreases n,
{
    if n == 0 {
        None
    } else if names[n - 1] == name {
        Some(n - 1)
    } else {
        last_named(names, name, (n - 1) as nat)
    }
}

/// The file type names of the extractors' languages, in order.
pub open spec fn extractor_type_names(opts: QueryOpts) -> Seq<Seq<char>> {
    Seq::new(
        opts.extractors@.len(),
        |k: int| language::types_builder_name(opts.extractors@[k].spec_language()),
    )
}

/// Chooses, by file type, which extractor reads a file.
pub struct ExtractorChooser {
    matcher: TypeMatcher,
}

impl ExtractorChooser {
    /// The file type name of each extractor, in order.
    pub closed spec fn names(&self) -> Seq<Seq<char>> {
        self.matcher.selected()
    }

    /// The extractor for the file at `path`: the last extractor whose file type is the one
    /// that whitelists the path, or none.
    pub fn extractor_for(&self, path: &str) -> (index: Option<usize>)
        ensures
            index == match matched_file_type(self.names(), path@) {
                Some(name) => match last_named(self.names(), name, self.names().len()) {
                    Some(j) => Some(j as usize),
                    None => None,
                },
                None => None::<usize>,
            },
    {
        let name = match matched_type(&self.matcher, path) {
            Some(name) => name,
            None => return None,
        };
        let names = &self.matcher.selected;
        let mut j: usize = names.len();
        while j > 0
            invariant
                j <= names@.len(),
                last_named(self.names(), name@, names@.len()) == last_named(
                    self.names(),
                    name@,
                    j as nat,
                ),
                self.names() == cli::texts(names@),
                self.names().len() == names@.len(),
                matched_file_type(self.names(), path@) == Some(name@),
            decreases j,
        {
            assert(self.names()[j - 1] == names@[j - 1]@);
            if language::same_text(names[j - 1].as_str(), name.as_str()) {
                return Some(j - 1);
            }
            j = j - 1;
        }
        None
    }
}

impl QueryOpts {
    /// Builds a file type matcher that selects the file type of each extractor's language.
    pub fn extractor_chooser(&self) -> (chooser: Result<ExtractorChooser, String>)
        ensures
            chooser is Ok <==> types_rejection(extractor_type_names(*self)) is None,
            chooser matches Ok(c) ==> c.names() == extractor_type_names(*self),
            chooser matches Err(message) ==> types_rejection(extractor_type_names(*self)) == Some(
                message@,
            ),
    {
        let mut names: Vec<String> = Vec::new();
        let mut i: usize = 0;
        while i < self.extractors.len()
            invariant
                i <= self.extractors@.len(),
                names@.len() == i,
                cli::texts(names@) == extractor_type_names(*self).take(i as int),
                cli::texts(names@) == extractor_type_names(*self).take(i as int),
            decreases self.extractors.len() - i,
        {
            let lang = self.extractors[i].language();
            let name = String::from_str(lang.name_for_types_builder());
            let ghost before = names@;
            names.push(name);
            assert(names@ == before.push(name));
            assert forall|k: int| 0 <= k <= i implies #[trigger] cli::texts(names@)[k]
                == extractor_type_names(*self).take(i + 1)[k] by {
                if k < i {
                    assert(cli::texts(before)[k] == before[k]@);
                    assert(cli::texts(before)[k] == extractor_type_names(*self).take(i as int)[k]);
                } else {
                    assert(extractor_type_names(*self)[k] == language::types_builder_name(
                        self.extractors@[k].spec_language(),
                    ));
                }
            }
            assert(cli::texts(names@) =~= extractor_type_names(*self).take(i + 1));
            i = i + 1;
        }
        assert(extractor_type_names(*self).take(i as int) =~= extractor_type_names(*self));
        proof {
            reveal_strlit("rust");
            reveal_strlit("all");
            assert("rust"@.len() != "all"@.len());
            assert forall|k: int| 0 <= k < names@.len() implies (#[trigger] names@[k])@
                != "all"@ by {
                assert(cli::texts(names@)[k] == names@[k]@);
                assert(extractor_type_names(*self)[k] == "rust"@);
            }
        }
        match build_types(&names) {
            Ok(matcher) => Ok(ExtractorChooser { matcher }),
            Err(message) => Err(message),
        }
    }
}

} // verus!
