use vstd::prelude::*;

use crate::query::extractor::Extractor;
use crate::query::compiled;
use crate::query::language;
use crate::query::language::{same_text, Language, UnknownLanguage};

verus! {

/// How the results of a query run are written out.
#[derive(PartialEq, Eq, Structural, Debug, Clone, Copy)]
pub enum QueryFormat {
    /// Classify the extracted functions.
    Classes,
    /// One line per match.
    Lines,
    /// A JSON array of the extracted files.
    Json,
    /// One JSON document per extracted file and line.
    JsonLines,
    /// An indented JSON array of the extracted files.
    PrettyJson,
}

/// The name of an output format on the command line.
pub open spec fn format_name(format: QueryFormat) -> Seq<char> {
    match format {
        QueryFormat::Classes => "classes"@,
        QueryFormat::Lines => "lines"@,
        QueryFormat::Json => "json"@,
        QueryFormat::JsonLines => "json-lines"@,
        QueryFormat::PrettyJson => "pretty-json"@,
    }
}

/// The output format called `name`, if there is one.
pub open spec fn format_named(name: Seq<char>) -> Option<QueryFormat> {
    if name == "classes"@ {
        Some(QueryFormat::Classes)
    } else if name == "lines"@ {
        Some(QueryFormat::Lines)
    } else if name == "json"@ {
        Some(QueryFormat::Json)
    } else if name == "json-lines"@ {
        Some(QueryFormat::JsonLines)
    } else if name == "pretty-json"@ {
        Some(QueryFormat::PrettyJson)
    } else {
        None
    }
}

/// The error for an output format name that is not known.
#[derive(Debug)]
pub struct UnknownFormat;

impl UnknownFormat {
    /// The text of the error.
    pub fn to_string(&self) -> (message: String)
        ensures
            message@ == "unknown format. See --help for valid formats."@,
    {
        String::from_str("unknown format. See --help for valid formats.")
    }
}

impl QueryFormat {
    /// The output format named `s`.
    pub fn from_str(s: &str) -> (format: Result<QueryFormat, UnknownFormat>)
        ensures
            format is Ok <==> format_named(s@) is Some,
            format matches Ok(f) ==> format_named(s@) == Some(f),
    {
        if same_text(s, "classes") {
            Ok(QueryFormat::Classes)
        } else if same_text(s, "lines") {
            Ok(QueryFormat::Lines)
        } else if same_text(s, "json") {
            Ok(QueryFormat::Json)
        } else if same_text(s, "json-lines") {
            Ok(QueryFormat::JsonLines)
        } else if same_text(s, "pretty-json") {
            Ok(QueryFormat::PrettyJson)
        } else {
            Err(UnknownFormat)
        }
    }
}

impl std::str::FromStr for QueryFormat {
    type Err = UnknownFormat;

    fn from_str(s: &str) -> (format: Result<QueryFormat, UnknownFormat>)
        ensures
            format is Ok <==> format_named(s@) is Some,
            format matches Ok(f) ==> format_named(s@) == Some(f),
    {
        QueryFormat::from_str(s)
    }
}

/// Every output format is read back from its name, and no two formats share a name.
pub proof fn lemma_format_names_round_trip(format: QueryFormat)
    ensures
        format_named(format_name(format)) == Some(format),
{
    reveal_strlit("classes");
    reveal_strlit("lines");
    reveal_strlit("json");
    reveal_strlit("json-lines");
    reveal_strlit("pretty-json");
    assert("classes"@.len() == 7);
    assert("lines"@.len() == 5);
    assert("json"@.len() == 4);
    assert("json-lines"@.len() == 10);
    assert("pretty-json"@.len() == 11);
}

/// Why a command line does not give a configuration.
#[derive(Debug)]
pub enum ConfigError {
    /// No language and query were given.
    MissingQueries,
    /// A language name is not known.
    UnknownLanguage(UnknownLanguage),
    /// A query does not compile; tree-sitter's message.
    InvalidQuery(String),
    /// The queries of one language, joined, do not compile; tree-sitter's message.
    InvalidCombinedQuery(String),
    /// No path to search was given.
    MissingPaths,
    /// No output format was given.
    MissingFormat,
    /// The output format is not known.
    UnknownFormat(UnknownFormat),
}

/// The text of a configuration error, as it is reported: what could not be done.
pub open spec fn error_context(e: ConfigError) -> Seq<char> {
    match e {
        ConfigError::MissingQueries =>
            "queries were required but not provided. This indicates an internal error and you should report it!"@,
        ConfigError::UnknownLanguage(_) => "could not parse language"@,
        ConfigError::InvalidQuery(_) => "could not parse query"@,
        ConfigError::InvalidCombinedQuery(_) => "could not parse combined query"@,
        ConfigError::MissingPaths =>
            "at least one path was required but not provided. This indicates an internal errors and you should report it!"@,
        ConfigError::MissingFormat => "format not provided"@,
        ConfigError::UnknownFormat(_) => "could not set format"@,
    }
}

/// The text of the innermost cause of a configuration error; an error without a cause is
/// its own root.
pub open spec fn error_root_cause(e: ConfigError) -> Seq<char> {
    match e {
        ConfigError::UnknownLanguage(u) => language::unknown_language_message(u.input@),
        ConfigError::InvalidQuery(m) => m@,
        ConfigError::InvalidCombinedQuery(m) => m@,
        ConfigError::UnknownFormat(_) => "unknown format. See --help for valid formats."@,
        _ => error_context(e),
    }
}

impl ConfigError {
    /// What could not be done.
    pub fn to_string(&self) -> (message: String)
        ensures
            message@ == error_context(*self),
    {
        match self {
            ConfigError::MissingQueries => String::from_str(
                "queries were required but not provided. This indicates an internal error and you should report it!",
            ),
            ConfigError::UnknownLanguage(_) => String::from_str("could not parse language"),
            ConfigError::InvalidQuery(_) => String::from_str("could not parse query"),
            ConfigError::InvalidCombinedQuery(_) => String::from_str(
                "could not parse combined query",
            ),
            ConfigError::MissingPaths => String::from_str(
                "at least one path was required but not provided. This indicates an internal errors and you should report it!",
            ),
            ConfigError::MissingFormat => String::from_str("format not provided"),
            ConfigError::UnknownFormat(_) => String::from_str("could not set format"),
        }
    }

    /// The innermost cause of the error.
    pub fn root_cause(&self) -> (message: String)
        ensures
            message@ == error_root_cause(*self),
    {
        match self {
            ConfigError::UnknownLanguage(u) => u.to_string(),
            ConfigError::InvalidQuery(m) => m.clone(),
            ConfigError::InvalidCombinedQuery(m) => m.clone(),
            ConfigError::UnknownFormat(u) => u.to_string(),
            _ => self.to_string(),
        }
    }
}

/// What the argument parser found on a command line.
pub struct ArgValues {
    /// The values of `--query`: a language, then a query, for each pair.
    pub queries: Option<Vec<String>>,
    /// Whether `--no-gitignore` was given.
    pub no_gitignore: bool,
    /// The places to search.
    pub paths: Option<Vec<String>>,
    /// The value of `--format`.
    pub format: Option<String>,
    /// Whether `--sort` was given.
    pub sort: bool,
    /// Whether `--language` was given.
    pub show_languages: bool,
    /// The line and column of `--position`.
    pub position: Option<(usize, usize)>,
}

/// The configuration of a query run.
#[derive(Debug)]
pub struct QueryOpts {
    /// The line and column that select the enclosing function or block.
    pub position: Vec<usize>,
    /// One extractor per language that a query was given for.
    pub extractors: Vec<Extractor>,
    /// The places to search.
    pub paths: Vec<String>,
    /// Whether git's ignore and exclude files filter the files.
    pub git_ignore: bool,
    /// How the results are written out.
    pub format: QueryFormat,
    /// Whether the results are sorted.
    pub sort: bool,
}

/// What a command line asks for.
pub enum Invocation {
    /// Run a query.
    DoQuery(QueryOpts),
    /// List the known languages.
    ShowLanguages,
}

/// The texts of a list of strings.
pub open spec fn texts(values: Seq<String>) -> Seq<Seq<char>> {
    values.map_values(|s: String| s@)
}

/// The number of (language, query) pairs in the values of `--query`; an unpaired last
/// value is left out.
pub open spec fn pair_count(values: Seq<Seq<char>>) -> nat {
    values.len() / 2
}

/// Whether the `i`-th pair names a known language and a query that compiles for it.
pub open spec fn pair_ok(values: Seq<Seq<char>>, i: int) -> bool {
    match language::parse_language(values[2 * i]) {
        Some(lang) => compiled::query_rejection(lang, values[2 * i + 1]) is None,
        None => false,
    }
}

/// The text a query contributes to the combined query of its language: a query without
/// captures gets the capture `@query`.
pub open spec fn piece_of(lang: Language, query: Seq<char>) -> Seq<char> {
    if compiled::query_capture_names(lang, query).len() == 0 {
        query + "@query"@
    } else {
        query
    }
}

/// The language and contributed text of each of the first `n` pairs.
pub open spec fn pair_pieces(values: Seq<Seq<char>>, n: nat) -> Seq<(Language, Seq<char>)> {
    Seq::new(
        n,
        |i: int|
            {
                let lang = language::parse_language(values[2 * i])->0;
                (lang, piece_of(lang, values[2 * i + 1]))
            },
    )
}

/// The first pair among the first `n` that is not usable.
pub open spec fn first_bad_pair(values: Seq<Seq<char>>, n: nat) -> Option<int>
    decreases n,
{
    if n == 0 {
        None
    } else {
        match first_bad_pair(values, (n - 1) as nat) {
            Some(i) => Some(i),
            None => if pair_ok(values, n - 1) {
                None
            } else {
                Some(n - 1)
            },
        }
    }
}

/// The languages of `pieces`, each once, in the order in which they first appear.
pub open spec fn languages_in_order(pieces: Seq<(Language, Seq<char>)>) -> Seq<Language>
    decreases pieces.len(),
{
    if pieces.len() == 0 {
        Seq::empty()
    } else {
        let earlier = languages_in_order(pieces.drop_last());
        if earlier.contains(pieces.last().0) {
            earlier
        } else {
            earlier.push(pieces.last().0)
        }
    }
}

/// The combined query of `lang`: the texts of its pieces, joined in order.
pub open spec fn merged_sources(pieces: Seq<(Language, Seq<char>)>, lang: Language) -> Seq<char>
    decreases pieces.len(),
{
    if pieces.len() == 0 {
        Seq::empty()
    } else {
        merged_sources(pieces.drop_last(), lang) + if pieces.last().0 == lang {
            pieces.last().1
        } else {
            Seq::empty()
        }
    }
}

/// The first of the first `n` languages of `langs` whose combined query does not compile.
pub open spec fn first_bad_group(
    pieces: Seq<(Language, Seq<char>)>,
    langs: Seq<Language>,
    n: nat,
) -> Option<int>
    decreases n,
{
    if n == 0 {
        None
    } else {
        match first_bad_group(pieces, langs, (n - 1) as nat) {
            Some(j) => Some(j),
            None => if compiled::query_rejection(langs[n - 1], merged_sources(pieces, langs[n - 1]))
                is Some {
                Some(n - 1)
            } else {
                None
            },
        }
    }
}

/// The pieces of all pairs.
pub open spec fn all_pieces(values: Seq<Seq<char>>) -> Seq<(Language, Seq<char>)> {
    pair_pieces(values, pair_count(values))
}

/// The languages that extractors are built for.
pub open spec fn extractor_languages(values: Seq<Seq<char>>) -> Seq<Language> {
    languages_in_order(all_pieces(values))
}

/// Whether extractors can be built from the values of `--query`.
pub open spec fn extraction_succeeds(values: Seq<Seq<char>>) -> bool {
    &&& first_bad_pair(values, pair_count(values)) is None
    &&& first_bad_group(
        all_pieces(values),
        extractor_languages(values),
        extractor_languages(values).len(),
    ) is None
}

/// Whether `extractors` are those built from the values of `--query`: one per language, in
/// the order in which the languages first appear, each running the combined query of its
/// language.
pub open spec fn extractors_match(values: Seq<Seq<char>>, extractors: Seq<Extractor>) -> bool {
    let langs = extractor_languages(values);
    &&& extractors.len() == langs.len()
    &&& forall|j: int|
        0 <= j < langs.len() ==> {
            &&& (#[trigger] extractors[j]).spec_language() == langs[j]
            &&& extractors[j].spec_query().language() == langs[j]
            &&& extractors[j].spec_query().source() == merged_sources(all_pieces(values), langs[j])
        }
}

/// Whether `e` is the error that building extractors from the values of `--query` stops
/// with: the first unusable pair, else the first language whose combined query does not
/// compile.
pub open spec fn extraction_error_matches(values: Seq<Seq<char>>, e: ConfigError) -> bool {
    match first_bad_pair(values, pair_count(values)) {
        Some(i) => match language::parse_language(values[2 * i]) {
            None => e matches ConfigError::UnknownLanguage(u) && u.input@ == values[2 * i],
            Some(lang) => e matches ConfigError::InvalidQuery(m) && compiled::query_rejection(
                lang,
                values[2 * i + 1],
            ) == Some(m@),
        },
        None => {
            let langs = extractor_languages(values);
            match first_bad_group(all_pieces(values), langs, langs.len()) {
                Some(j) => e matches ConfigError::InvalidCombinedQuery(m)
                    && compiled::query_rejection(langs[j], merged_sources(all_pieces(values), langs[j]))
                    == Some(m@),
                None => false,
            }
        },
    }
}

/// Once an unusable pair is found, it stays the first one.
proof fn lemma_first_bad_pair_stays(values: Seq<Seq<char>>, n: nat, m: nat)
    requires
        n <= m,
        first_bad_pair(values, n) is Some,
    ensures
        first_bad_pair(values, m) == first_bad_pair(values, n),
    decreases m - n,
{
    if n < m {
        lemma_first_bad_pair_stays(values, n, (m - 1) as nat);
    }
}

/// Once a language whose combined query fails is found, it stays the first one.
proof fn lemma_first_bad_group_stays(
    pieces: Seq<(Language, Seq<char>)>,
    langs: Seq<Language>,
    n: nat,
    m: nat,
)
    requires
        n <= m,
        first_bad_group(pieces, langs, n) is Some,
    ensures
        first_bad_group(pieces, langs, m) == first_bad_group(pieces, langs, n),
    decreases m - n,
{
    if n < m {
        lemma_first_bad_group_stays(pieces, langs, n, (m - 1) as nat);
    }
}

/// The languages in order of first appearance hold no language twice, and every language
/// of a piece is among them.
proof fn lemma_languages_in_order(pieces: Seq<(Language, Seq<char>)>)
    ensures
        forall|i: int, j: int|
            0 <= i < j < languages_in_order(pieces).len() ==> languages_in_order(pieces)[i]
                != languages_in_order(pieces)[j],
        forall|k: int|
            0 <= k < pieces.len() ==> languages_in_order(pieces).contains(#[trigger] pieces[k].0),
    decreases pieces.len(),
{
    if pieces.len() > 0 {
        let earlier = pieces.drop_last();
        lemma_languages_in_order(earlier);
        assert forall|k: int| 0 <= k < pieces.len() implies languages_in_order(pieces).contains(
            #[trigger] pieces[k].0,
        ) by {
            if k < pieces.len() - 1 {
                assert(earlier[k] == pieces[k]);
                let d = languages_in_order(earlier);
                let x = choose|x: int| 0 <= x < d.len() && d[x] == pieces[k].0;
                if !d.contains(pieces.last().0) {
                    assert(d.push(pieces.last().0)[x] == pieces[k].0);
                }
            } else {
                let d = languages_in_order(earlier);
                if !d.contains(pieces.last().0) {
                    assert(d.push(pieces.last().0)[d.len() as int] == pieces[k].0);
                }
            }
        }
    }
}

/// Queries are combined per language: every language of the `--query` values gets exactly
/// one extractor.
pub proof fn lemma_one_extractor_per_language(values: Seq<Seq<char>>, extractors: Seq<Extractor>)
    requires
        extractors_match(values, extractors),
    ensures
        forall|i: int, j: int|
            0 <= i < j < extractors.len() ==> extractors[i].spec_language()
                != extractors[j].spec_language(),
        forall|k: int|
            0 <= k < all_pieces(values).len() ==> exists|j: int|
                0 <= j < extractors.len() && extractors[j].spec_language() == (
                #[trigger] all_pieces(values)[k]).0,
{
    let pieces = all_pieces(values);
    lemma_languages_in_order(pieces);
    assert forall|k: int| 0 <= k < all_pieces(values).len() implies exists|j: int|
        0 <= j < extractors.len() && extractors[j].spec_language() == (
        #[trigger] all_pieces(values)[k]).0 by {
        let langs = extractor_languages(values);
        assert(langs.contains(pieces[k].0));
        let j = choose|j: int| 0 <= j < langs.len() && langs[j] == pieces[k].0;
        assert(extractors[j].spec_language() == langs[j]);
    }
}

impl Invocation {
    /// Builds the extractors from the values of `--query`: each pair's query is compiled
    /// for its language (a query without captures gets `@query`), the queries of one
    /// language are joined into one, and that is compiled again.
    fn extractors(values: &Vec<String>) -> (result: Result<Vec<Extractor>, ConfigError>)
        ensures
            result is Ok <==> extraction_succeeds(texts(values@)),
            result matches Ok(extractors) ==> extractors_match(texts(values@), extractors@),
            result matches Err(e) ==> extraction_error_matches(texts(values@), e),
    {
        let ghost vals = texts(values@);
        let n = values.len() / 2;
        let mut langs: Vec<Language> = Vec::new();
        let mut sources: Vec<String> = Vec::new();
        let mut i: usize = 0;
        while i < n
            invariant
                vals == texts(values@),
                vals.len() == values@.len(),
                n == pair_count(vals),
                i <= n,
                first_bad_pair(vals, i as nat) is None,
                langs@ == languages_in_order(pair_pieces(vals, i as nat)),
                sources@.len() == langs@.len(),
                forall|j: int|
                    0 <= j < langs@.len() ==> #[trigger] sources@[j]@ == merged_sources(
                        pair_pieces(vals, i as nat),
                        langs@[j],
                    ),
            decreases n - i,
        {
            assert(2 * i + 1 < values.len());
            let raw_lang = &values[2 * i];
            let raw_query = &values[2 * i + 1];
            assert(vals[2 * i] == raw_lang@);
            assert(vals[2 * i + 1] == raw_query@);
            let lang = match Language::from_str(raw_lang.as_str()) {
                Ok(lang) => lang,
                Err(e) => {
                    proof {
                        assert(first_bad_pair(vals, (i + 1) as nat) == Some(i as int));
                        lemma_first_bad_pair_stays(vals, (i + 1) as nat, n as nat);
                    }
                    return Err(ConfigError::UnknownLanguage(e));
                },
            };
            let query = match lang.parse_query(raw_query.as_str()) {
                Ok(query) => query,
                Err(message) => {
                    proof {
                        assert(first_bad_pair(vals, (i + 1) as nat) == Some(i as int));
                        lemma_first_bad_pair_stays(vals, (i + 1) as nat, n as nat);
                    }
                    return Err(ConfigError::InvalidQuery(message));
                },
            };
            let mut piece = raw_query.clone();
            let names = query.capture_names();
            if names.len() == 0 {
                piece.append("@query");
            }
            let ghost old_pieces = pair_pieces(vals, i as nat);
            let ghost new_pieces = pair_pieces(vals, (i + 1) as nat);
            assert(new_pieces.drop_last() =~= old_pieces);
            assert(new_pieces.last() == (lang, piece@));

            let mut j: usize = 0;
            let mut found = false;
            while j < langs.len()
                invariant_except_break
                    j <= langs@.len(),
                    forall|k: int| 0 <= k < j ==> langs@[k] != lang,
                    !found,
                ensures
                    found ==> j < langs@.len() && langs@[j as int] == lang,
                    !found ==> forall|k: int| 0 <= k < langs@.len() ==> langs@[k] != lang,
                decreases langs.len() - j,
            {
                if langs[j] == lang {
                    found = true;
                    break;
                }
                j = j + 1;
            }
            let ghost old_sources = sources@;
            let ghost old_langs = langs@;
            assert forall|k: int| 0 <= k < old_langs.len() implies #[trigger] old_sources[k]@
                == merged_sources(old_pieces, old_langs[k]) by {
                assert(sources@[k]@ == merged_sources(old_pieces, langs@[k]));
            }
            if found {
                let mut merged = sources[j].clone();
                merged.append(piece.as_str());
                sources[j] = merged;
                assert(old_langs.contains(lang)) by {
                    assert(old_langs[j as int] == lang);
                }
            } else {
                langs.push(lang);
                sources.push(piece);
            }
            assert(langs@ == languages_in_order(new_pieces));
            assert forall|k: int| 0 <= k < langs@.len() implies #[trigger] sources@[k]@
                == merged_sources(new_pieces, langs@[k]) by {
                let l = langs@[k];
                if l == lang {
                    assert(merged_sources(new_pieces, l) == merged_sources(old_pieces, l)
                        + piece@);
                    if found {
                        assert(k == j) by {
                            if k != j {
                                lemma_languages_in_order(old_pieces);
                            }
                        }
                    } else {
                        if k < old_langs.len() {
                            assert(old_langs[k] == l);
                        }
                        lemma_merged_sources_absent(old_pieces, lang);
                        assert(merged_sources(old_pieces, lang) + piece@ =~= piece@);
                    }
                } else {
                    assert(merged_sources(new_pieces, l) =~= merged_sources(old_pieces, l));
                    assert(k < old_langs.len());
                    assert(old_langs[k] == l);
                    assert(old_sources[k]@ == merged_sources(old_pieces, l));
                }
            }
            i = i + 1;
        }
        let ghost pieces = all_pieces(vals);
        let mut extractors: Vec<Extractor> = Vec::new();
        let mut j: usize = 0;
        while j < langs.len()
            invariant
                vals == texts(values@),
                n == pair_count(vals),
                pieces == all_pieces(vals),
                first_bad_pair(vals, n as nat) is None,
                langs@ == extractor_languages(vals),
                sources@.len() == langs@.len(),
                forall|k: int|
                    0 <= k < langs@.len() ==> #[trigger] sources@[k]@ == merged_sources(
                        pieces,
                        langs@[k],
                    ),
                j <= langs@.len(),
                first_bad_group(pieces, langs@, j as nat) is None,
                extractors@.len() == j,
                forall|k: int|
                    0 <= k < j ==> {
                        &&& (#[trigger] extractors@[k]).spec_language() == langs@[k]
                        &&& extractors@[k].spec_query().language() == langs@[k]
                        &&& extractors@[k].spec_query().source() == merged_sources(
                            pieces,
                            langs@[k],
                        )
                    },
            decreases langs.len() - j,
        {
            let lang = langs[j];
            assert(sources@[j as int]@ == merged_sources(pieces, langs@[j as int]));
            match lang.parse_query(sources[j].as_str()) {
                Ok(query) => {
                    extractors.push(Extractor::new(lang, query));
                },
                Err(message) => {
                    proof {
                        assert(first_bad_group(pieces, langs@, (j + 1) as nat) == Some(j as int));
                        lemma_first_bad_group_stays(
                            pieces,
                            langs@,
                            (j + 1) as nat,
                            langs@.len(),
                        );
                    }
                    return Err(ConfigError::InvalidCombinedQuery(message));
                },
            }
            j = j + 1;
        }
        Ok(extractors)
    }
}

/// The position that `--position` selects: the line and column given, else `0, 0`.
pub open spec fn selected_position(position: Option<(usize, usize)>) -> Seq<usize> {
    match position {
        Some((line, column)) => seq![line, column],
        None => seq![0usize, 0usize],
    }
}

/// Whether `opts` is the query configuration that the command line `args` asks for.
pub open spec fn opts_match(args: ArgValues, opts: QueryOpts) -> bool {
    &&& extractors_match(texts(args.queries->0@), opts.extractors@)
    &&& opts.paths@ == args.paths->0@
    &&& opts.git_ignore == !args.no_gitignore
    &&& Some(opts.format) == format_named(args.format->0@)
    &&& opts.sort == args.sort
    &&& opts.position@ == selected_position(args.position)
}

/// The configuration keeps the position given on the command line: the line first, then
/// the column; without one it is line 0, column 0.
pub proof fn lemma_position_is_line_then_column(args: ArgValues, opts: QueryOpts)
    requires
        opts_match(args, opts),
    ensures
        opts.position@.len() == 2,
        args.position matches Some((line, column)) ==> opts.position@[0] == line
            && opts.position@[1] == column,
        args.position is None ==> opts.position@[0] == 0 && opts.position@[1] == 0,
{
}

impl Invocation {
    /// The places to search, or the error when none were given.
    fn paths(values: Option<Vec<String>>) -> (paths: Result<Vec<String>, ConfigError>)
        ensures
            match values {
                Some(v) => paths matches Ok(p) && p@ == v@,
                None => paths matches Err(ConfigError::MissingPaths),
            },
    {
        match values {
            Some(values) => Ok(values),
            None => Err(ConfigError::MissingPaths),
        }
    }
}

impl Invocation {
    /// Builds the invocation from what the argument parser found. The checks run in this
    /// order: the queries, the paths, the format; a configuration that passes them lists the
    /// languages when `--language` was given and runs the query otherwise.
    pub fn from_args(args: ArgValues) -> (invocation: Result<Invocation, ConfigError>)
        ensures
            match args.queries {
                None => invocation matches Err(ConfigError::MissingQueries),
                Some(queries) => if !extraction_succeeds(texts(queries@)) {
                    invocation matches Err(e) && extraction_error_matches(texts(queries@), e)
                } else if args.paths is None {
                    invocation matches Err(ConfigError::MissingPaths)
                } else if args.format is None {
                    invocation matches Err(ConfigError::MissingFormat)
                } else if format_named(args.format->0@) is None {
                    invocation matches Err(ConfigError::UnknownFormat(_))
                } else if args.show_languages {
                    invocation matches Ok(Invocation::ShowLanguages)
                } else {
                    invocation matches Ok(Invocation::DoQuery(opts)) && opts_match(args, opts)
                },
            },
            invocation matches Ok(Invocation::DoQuery(opts)) ==> opts.position@.len() == 2 && (
            args.position matches Some((line, column)) ==> opts.position@[0] == line
                && opts.position@[1] == column),
    {
        let ghost original = args;
        let sort = args.sort;
        let extractors = match &args.queries {
            Some(values) => match Self::extractors(values) {
                Ok(extractors) => extractors,
                Err(e) => return Err(e),
            },
            None => return Err(ConfigError::MissingQueries),
        };
        let paths = match Self::paths(args.paths) {
            Ok(paths) => paths,
            Err(e) => return Err(e),
        };
        let git_ignore = !args.no_gitignore;
        let format = match &args.format {
            Some(name) => match QueryFormat::from_str(name.as_str()) {
                Ok(format) => format,
                Err(e) => return Err(ConfigError::UnknownFormat(e)),
            },
            None => return Err(ConfigError::MissingFormat),
        };
        let mut position: Vec<usize> = Vec::new();
        match args.position {
            Some((line, column)) => {
                position.push(line);
                position.push(column);
            },
            None => {
                position.push(0);
                position.push(0);
            },
        }
        assert(position@ =~= selected_position(original.position));
        if args.show_languages {
            Ok(Invocation::ShowLanguages)
        } else {
            let opts = QueryOpts { position, extractors, paths, git_ignore, format, sort };
            Ok(Invocation::DoQuery(opts))
        }
    }
}

/// A language without pieces has an empty combined query.
proof fn lemma_merged_sources_absent(pieces: Seq<(Language, Seq<char>)>, lang: Language)
    requires
        !languages_in_order(pieces).contains(lang),
    ensures
        merged_sources(pieces, lang) == Seq::<char>::empty(),
    decreases pieces.len(),
{
    if pieces.len() > 0 {
        let earlier = pieces.drop_last();
        let d = languages_in_order(earlier);
        if d.contains(lang) {
            let x = choose|x: int| 0 <= x < d.len() && d[x] == lang;
            if !d.contains(pieces.last().0) {
                assert(d.push(pieces.last().0)[x] == lang);
            }
        }
        lemma_merged_sources_absent(earlier, lang);
        if pieces.last().0 == lang {
            if d.contains(pieces.last().0) {
            } else {
                assert(d.push(pieces.last().0)[d.len() as int] == lang);
            }
        }
        assert(Seq::<char>::empty() + Seq::<char>::empty() =~= Seq::<char>::empty());
    }
}

} // verus!
